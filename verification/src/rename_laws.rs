//! What a rename does, told by the nodes and edges of the graph and the tokens of the files.
use vstd::prelude::*;

use crate::blast;
use crate::hashing;
use crate::model;
use crate::model::{Direction, EdgeKind, EdgeView, GraphView, NodeKind, NodeView};
use crate::order;
use crate::ordmap;
use crate::rename;
use crate::rename::{
    CandidateView, FileRead, PlannedEdit, RenameFault, RenameOptions, RenameView, SyntaxView, TargetMeaning,
};
use crate::text;

verus! {

// ----------------------------------------------------------------------------------------------
// The target
// ----------------------------------------------------------------------------------------------

/// Whether a name means a node: it is the qualified name of the node, or its short name where it is the
/// qualified name of none.
pub open spec fn is_meant(g: GraphView, name: Seq<char>, x: NodeView) -> bool {
    &&& g.nodes.contains(x)
    &&& x.fqn == name || (x.name == name && forall|y: NodeView| #[trigger] g.nodes.contains(y) ==> y.fqn != name)
}

/// Whether a node can be renamed: a function, a method, a class or an interface.
pub open spec fn is_code(x: NodeView) -> bool {
    x.kind == NodeKind::Function || x.kind == NodeKind::Method || x.kind == NodeKind::Class || x.kind
        == NodeKind::Interface
}

proof fn lemma_matching(nodes: Seq<NodeView>, name: Seq<char>, by_fqn: bool, n: nat, x: NodeView)
    requires
        n <= nodes.len(),
    ensures
        rename::matching(nodes, name, by_fqn, n).contains(x) == (nodes.take(n as int).contains(x) && (if by_fqn {
            x.fqn
        } else {
            x.name
        }) == name),
    decreases n,
{
    if n > 0 {
        let last = n - 1;
        lemma_matching(nodes, name, by_fqn, (n - 1) as nat, x);
        let rest = rename::matching(nodes, name, by_fqn, (n - 1) as nat);
        model::lemma_pushed(rest, nodes[last], x);
        assert(nodes.take(n as int) =~= nodes.take(last).push(nodes[last]));
        model::lemma_pushed(nodes.take(last), nodes[last], x);
    }
}

proof fn lemma_code_nodes(nodes: Seq<NodeView>, n: nat, x: NodeView)
    requires
        n <= nodes.len(),
    ensures
        rename::code_nodes(nodes, n).contains(x) == (nodes.take(n as int).contains(x) && is_code(x)),
    decreases n,
{
    if n > 0 {
        let last = n - 1;
        lemma_code_nodes(nodes, (n - 1) as nat, x);
        let rest = rename::code_nodes(nodes, (n - 1) as nat);
        model::lemma_pushed(rest, nodes[last], x);
        assert(nodes.take(n as int) =~= nodes.take(last).push(nodes[last]));
        model::lemma_pushed(nodes.take(last), nodes[last], x);
    }
}

proof fn lemma_nonempty<T>(s: Seq<T>)
    ensures
        s.len() > 0 <==> exists|x: T| #[trigger] s.contains(x),
{
    if s.len() > 0 {
        assert(s.contains(s[0]));
    }
}

proof fn lemma_meant(g: GraphView, name: Seq<char>)
    ensures
        forall|x: NodeView| #[trigger] rename::meant(g, name).contains(x) == is_meant(g, name, x),
        ({
            let found = rename::meant(g, name);
            forall|x: NodeView| #[trigger]
                rename::code_nodes(found, found.len()).contains(x) == (is_meant(g, name, x) && is_code(x))
        }),
{
    let by_fqn = rename::matching(g.nodes, name, true, g.nodes.len());
    let found = rename::meant(g, name);
    assert(g.nodes.take(g.nodes.len() as int) =~= g.nodes);
    assert forall|x: NodeView| #[trigger] by_fqn.contains(x) == (g.nodes.contains(x) && x.fqn == name) by {
        lemma_matching(g.nodes, name, true, g.nodes.len(), x);
    }
    lemma_nonempty(by_fqn);
    assert forall|x: NodeView| #[trigger] found.contains(x) == is_meant(g, name, x) by {
        lemma_matching(g.nodes, name, false, g.nodes.len(), x);
        if by_fqn.len() > 0 {
            let y = by_fqn[0];
            assert(by_fqn.contains(y));
            assert(g.nodes.contains(y) && y.fqn == name);
        } else {
            assert forall|y: NodeView| #[trigger] g.nodes.contains(y) implies y.fqn != name by {
                assert(!by_fqn.contains(y));
            }
        }
    }
    assert(found.take(found.len() as int) =~= found);
    assert forall|x: NodeView| #[trigger] rename::code_nodes(found, found.len()).contains(x) == (is_meant(g, name, x)
        && is_code(x)) by {
        lemma_code_nodes(found, found.len(), x);
    }
}

proof fn lemma_place_of(nodes: Seq<NodeView>, uid: Seq<char>, from: int)
    requires
        0 <= from,
    ensures
        ({
            let at = rename::place_of(nodes, uid, from);
            if at < 0 {
                forall|i: int| from <= i < nodes.len() ==> (#[trigger] nodes[i]).uid != uid
            } else {
                from <= at < nodes.len() && nodes[at].uid == uid
            }
        }),
    decreases nodes.len() - from,
{
    if from < nodes.len() && nodes[from].uid != uid {
        lemma_place_of(nodes, uid, from + 1);
    }
}

/// Whether a name means a symbol of the code.
pub open spec fn some_symbol(g: GraphView, name: Seq<char>) -> bool {
    exists|x: NodeView| #[trigger] is_meant(g, name, x) && is_code(x)
}

/// Whether a node is among candidates.
pub open spec fn is_listed(c: Seq<CandidateView>, x: NodeView) -> bool {
    exists|i: int| 0 <= i < c.len() && (#[trigger] c[i]).uid == x.uid && c[i].name == x.name && c[i].path == x.path
}

/// Whether a candidate is a symbol that a name means.
pub open spec fn lists_symbol(g: GraphView, name: Seq<char>, c: CandidateView) -> bool {
    exists|x: NodeView| #[trigger]
        is_meant(g, name, x) && is_code(x) && c.uid == x.uid && c.name == x.name && c.path == x.path
}

/// What a name means: nothing is a fault, and so is what is no symbol of the code, and an identifier that
/// no symbol of that name has. Where an identifier is given, the symbol that has it is meant; where none
/// is given, the one symbol of that name, and where there are several, all of them are listed.
pub proof fn law_rename_target(g: GraphView, name: Seq<char>, uid: Option<Seq<char>>)
    ensures
        rename::meaning(g, name, uid) == TargetMeaning::Fault(RenameFault::NotFound(name)) <==> forall|x: NodeView| !#[trigger]
            is_meant(g, name, x),
        (rename::meaning(g, name, uid) matches TargetMeaning::Fault(RenameFault::NotCodeSymbol(n, _)) && n == name)
            <==> !some_symbol(g, name) && exists|x: NodeView| #[trigger] is_meant(g, name, x),
        (uid matches Some(u) && rename::meaning(g, name, uid) == TargetMeaning::Fault(
            RenameFault::UidNotFound(u, name),
        )) <==> some_symbol(g, name) && (uid matches Some(u) && forall|x: NodeView| #[trigger]
            is_meant(g, name, x) && is_code(x) ==> x.uid != u),
        rename::meaning(g, name, uid) matches TargetMeaning::One(u, path) ==> {
            &&& exists|x: NodeView| #[trigger] is_meant(g, name, x) && is_code(x) && x.uid == u && x.path == path
            &&& uid matches Some(want) ==> u == want
            &&& uid is None ==> forall|x: NodeView| #[trigger]
                is_meant(g, name, x) && is_code(x) ==> x.uid == u && x.path == path
        },
        rename::meaning(g, name, uid) matches TargetMeaning::Many(c) ==> {
            &&& uid is None
            &&& c.len() > 1
            &&& forall|x: NodeView| #[trigger] is_meant(g, name, x) && is_code(x) ==> is_listed(c, x)
            &&& forall|i: int| 0 <= i < c.len() ==> lists_symbol(g, name, #[trigger] c[i])
        },
{
    let found = rename::meant(g, name);
    let code = rename::code_nodes(found, found.len());
    lemma_meant(g, name);
    lemma_nonempty(found);
    lemma_nonempty(code);
    if found.len() > 0 {
        assert(found.contains(found[0]));
        assert(is_meant(g, name, found[0]));
    } else {
        assert forall|x: NodeView| !#[trigger] is_meant(g, name, x) by {
            assert(!found.contains(x));
        }
    }
    if code.len() == 0 {
        assert forall|x: NodeView| #[trigger] is_meant(g, name, x) implies !is_code(x) by {
            assert(!code.contains(x));
        }
    }
    if code.len() > 0 {
        assert(code.contains(code[0]));
        assert(is_meant(g, name, code[0]) && is_code(code[0]));
        match uid {
            Some(u) => {
                lemma_place_of(code, u, 0);
                let at = rename::place_of(code, u, 0);
                if at < 0 {
                    assert forall|x: NodeView| #[trigger] is_meant(g, name, x) && is_code(x) implies x.uid != u by {
                        assert(code.contains(x));
                        let i = choose|i: int| 0 <= i < code.len() && code[i] == x;
                        assert(code[i].uid != u);
                    }
                } else {
                    assert(code.contains(code[at]));
                    assert(is_meant(g, name, code[at]) && is_code(code[at]));
                }
            },
            None => {
                if code.len() == 1 {
                    assert forall|x: NodeView| #[trigger] is_meant(g, name, x) && is_code(x) implies x == code[0] by {
                        assert(code.contains(x));
                    }
                } else {
                    let sorted = rename::by_uid(code);
                    order::law_sorting_keeps(code, blast::node_keys(code));
                    let c = rename::as_candidates(sorted);
                    assert forall|x: NodeView| #[trigger] is_meant(g, name, x) && is_code(x) implies is_listed(c, x) by {
                        assert(code.contains(x));
                        assert(sorted.contains(x));
                        let i = choose|i: int| 0 <= i < sorted.len() && sorted[i] == x;
                        assert(c[i].uid == x.uid);
                    }
                    assert forall|i: int| 0 <= i < c.len() implies lists_symbol(g, name, #[trigger] c[i]) by {
                        assert(sorted.contains(sorted[i]));
                        assert(code.contains(sorted[i]));
                        assert(is_meant(g, name, sorted[i]));
                    }
                }
            },
        }
    }
}

// ----------------------------------------------------------------------------------------------
// The files
// ----------------------------------------------------------------------------------------------

/// Whether an edge implicates a file: it is a call or an import between the target and a node of the
/// file.
pub open spec fn implicated_by(g: GraphView, uid: Seq<char>, p: Seq<char>, e: EdgeView) -> bool {
    &&& g.edges.contains(e)
    &&& e.kind == EdgeKind::Calls || e.kind == EdgeKind::Imports
    &&& p.len() > 0
    &&& (e.src == uid && (g.node(e.dst) matches Some(x) && x.path == p)) || (e.dst == uid && (g.node(
        e.src,
    ) matches Some(x) && x.path == p))
}

/// Whether a file is implicated with a confidence: it defines the target, or an edge implicates it.
pub open spec fn counts_as(g: GraphView, uid: Seq<char>, path: Seq<char>, p: Seq<char>, confidence: u32) -> bool {
    ||| p == path && confidence == 950_000_000
    ||| exists|e: EdgeView| #[trigger] implicated_by(g, uid, p, e) && e.confidence == confidence
}

spec fn neighbor_of(neighbors: Seq<(EdgeView, NodeView)>, n: int, p: Seq<char>, c: u32) -> bool {
    exists|i: int| 0 <= i < n && (#[trigger] neighbors[i]).1.path == p && p.len() > 0 && neighbors[i].0.confidence == c
}

spec fn greatest(files: Map<Seq<char>, u32>, way: spec_fn(Seq<char>, u32) -> bool) -> bool {
    &&& forall|p: Seq<char>| #[trigger] files.dom().contains(p) ==> way(p, files[p])
    &&& forall|p: Seq<char>, c: u32| #[trigger] way(p, c) ==> files.dom().contains(p) && c <= files[p]
}

proof fn lemma_greatest(
    files: Map<Seq<char>, u32>,
    neighbors: Seq<(EdgeView, NodeView)>,
    n: nat,
    way: spec_fn(Seq<char>, u32) -> bool,
)
    requires
        n <= neighbors.len(),
        greatest(files, way),
    ensures
        greatest(
            rename::with_neighbors(files, neighbors, n),
            |p: Seq<char>, c: u32| way(p, c) || neighbor_of(neighbors, n as int, p, c),
        ),
    decreases n,
{
    let more = |p: Seq<char>, c: u32| way(p, c) || neighbor_of(neighbors, n as int, p, c);
    let all = rename::with_neighbors(files, neighbors, n);
    if n > 0 {
        let m = (n - 1) as nat;
        let last = n - 1;
        lemma_greatest(files, neighbors, m, way);
        let rest = rename::with_neighbors(files, neighbors, m);
        let less = |p: Seq<char>, c: u32| way(p, c) || neighbor_of(neighbors, m as int, p, c);
        let path = neighbors[last].1.path;
        let conf = neighbors[last].0.confidence;
        assert forall|p: Seq<char>, c: u32| #[trigger] more(p, c) == (less(p, c) || (p == path && p.len() > 0 && c == conf)) by {
            if neighbor_of(neighbors, n as int, p, c) {
                let i = choose|i: int|
                    0 <= i < n && (#[trigger] neighbors[i]).1.path == p && p.len() > 0 && neighbors[i].0.confidence == c;
                assert(i < m || i == last);
            }
            if p == path && p.len() > 0 && c == conf {
                assert(neighbors[last].1.path == p);
            }
        }
        assert forall|p: Seq<char>| #[trigger] all.dom().contains(p) implies more(p, all[p]) by {
            if rest.dom().contains(p) {
                assert(less(p, rest[p]));
                assert(more(p, rest[p]));
            }
            assert(more(path, conf) == (less(path, conf) || path.len() > 0));
        }
        assert forall|p: Seq<char>, c: u32| #[trigger] more(p, c) implies all.dom().contains(p) && c <= all[p] by {
            if less(p, c) {
                assert(rest.dom().contains(p) && c <= rest[p]);
            }
        }
    } else {
        assert forall|p: Seq<char>, c: u32| #[trigger] more(p, c) implies all.dom().contains(p) && c <= all[p] by {
            assert(way(p, c));
        }
    }
}

/// The files that a rename touches are the one that defines the target, and those of the nodes that call
/// or import it and that it calls or imports; each counts as its surest implication.
pub proof fn law_rename_files(g: GraphView, uid: Seq<char>, path: Seq<char>)
    ensures
        ({
            let files = rename::implicated(g, uid, path);
            &&& forall|p: Seq<char>| #[trigger]
                files.dom().contains(p) <==> p == path || exists|e: EdgeView| #[trigger] implicated_by(g, uid, p, e)
            &&& forall|p: Seq<char>| #[trigger] files.dom().contains(p) ==> counts_as(g, uid, path, p, files[p])
            &&& forall|p: Seq<char>, c: u32| #[trigger]
                counts_as(g, uid, path, p, c) ==> files.dom().contains(p) && c <= files[p]
        }),
{
    let kinds = rename::reference_kinds();
    assert(kinds[0] == EdgeKind::Calls && kinds[1] == EdgeKind::Imports);
    assert forall|k: EdgeKind| #[trigger] kinds.contains(k) == (k == EdgeKind::Calls || k == EdgeKind::Imports) by {}
    let out = model::neighbors_upto(g, uid, Direction::Outgoing, kinds, g.edges.len());
    let into = model::neighbors_upto(g, uid, Direction::Incoming, kinds, g.edges.len());
    let start = rename::bumped(Map::empty(), path, rename::DEF_SITE_CONFIDENCE);
    let mid = rename::with_neighbors(start, out, out.len());
    let files = rename::implicated(g, uid, path);
    let a = |p: Seq<char>, c: u32| p == path && c == 950_000_000;
    let b = |p: Seq<char>, c: u32| a(p, c) || neighbor_of(out, out.len() as int, p, c);
    let d = |p: Seq<char>, c: u32| b(p, c) || neighbor_of(into, into.len() as int, p, c);
    assert(greatest(start, a));
    lemma_greatest(start, out, out.len(), a);
    lemma_greatest(mid, into, into.len(), b);
    assert(greatest(files, d));
    assert forall|p: Seq<char>, c: u32| #[trigger] d(p, c) == counts_as(g, uid, path, p, c) by {
        lemma_implies(g, uid, path, p, c);
    }
    assert forall|p: Seq<char>, c: u32| #[trigger] counts_as(g, uid, path, p, c) implies files.dom().contains(p) && c
        <= files[p] by {
        assert(d(p, c));
    }
    assert forall|p: Seq<char>| #[trigger] files.dom().contains(p) implies counts_as(g, uid, path, p, files[p]) by {
        assert(d(p, files[p]));
    }
    assert forall|p: Seq<char>| #[trigger] files.dom().contains(p) <==> p == path || exists|e: EdgeView| #[trigger]
        implicated_by(g, uid, p, e) by {
        if p == path {
            assert(counts_as(g, uid, path, p, 950_000_000));
        }
        if exists|e: EdgeView| #[trigger] implicated_by(g, uid, p, e) {
            let e = choose|e: EdgeView| #[trigger] implicated_by(g, uid, p, e);
            assert(counts_as(g, uid, path, p, e.confidence));
        }
        if files.dom().contains(p) {
            assert(counts_as(g, uid, path, p, files[p]));
        }
    }
}

proof fn lemma_implies(g: GraphView, uid: Seq<char>, path: Seq<char>, p: Seq<char>, c: u32)
    ensures
        ({
            let kinds = rename::reference_kinds();
            let out = model::neighbors_upto(g, uid, Direction::Outgoing, kinds, g.edges.len());
            let into = model::neighbors_upto(g, uid, Direction::Incoming, kinds, g.edges.len());
            (neighbor_of(out, out.len() as int, p, c) || neighbor_of(into, into.len() as int, p, c)) == exists|e: EdgeView| #[trigger]
                implicated_by(g, uid, p, e) && e.confidence == c
        }),
{
    let kinds = rename::reference_kinds();
    assert(kinds[0] == EdgeKind::Calls && kinds[1] == EdgeKind::Imports);
    let out = model::neighbors_upto(g, uid, Direction::Outgoing, kinds, g.edges.len());
    let into = model::neighbors_upto(g, uid, Direction::Incoming, kinds, g.edges.len());
    if neighbor_of(out, out.len() as int, p, c) {
        let i = choose|i: int|
            0 <= i < out.len() && (#[trigger] out[i]).1.path == p && p.len() > 0 && out[i].0.confidence == c;
        assert(out.contains((out[i].0, out[i].1)));
        model::law_neighbors(g, uid, Direction::Outgoing, kinds, out[i].0, out[i].1);
        assert(implicated_by(g, uid, p, out[i].0));
    }
    if neighbor_of(into, into.len() as int, p, c) {
        let i = choose|i: int|
            0 <= i < into.len() && (#[trigger] into[i]).1.path == p && p.len() > 0 && into[i].0.confidence == c;
        assert(into.contains((into[i].0, into[i].1)));
        model::law_neighbors(g, uid, Direction::Incoming, kinds, into[i].0, into[i].1);
        assert(implicated_by(g, uid, p, into[i].0));
    }
    if exists|e: EdgeView| #[trigger] implicated_by(g, uid, p, e) && e.confidence == c {
        let e = choose|e: EdgeView| #[trigger] implicated_by(g, uid, p, e) && e.confidence == c;
        if e.src == uid && (g.node(e.dst) matches Some(x) && x.path == p) {
            let x = g.node(e.dst)->0;
            model::law_neighbors(g, uid, Direction::Outgoing, kinds, e, x);
            let i = choose|i: int| 0 <= i < out.len() && out[i] == (e, x);
            assert(out[i].1.path == p);
        } else {
            let x = g.node(e.src)->0;
            model::law_neighbors(g, uid, Direction::Incoming, kinds, e, x);
            let i = choose|i: int| 0 <= i < into.len() && into[i] == (e, x);
            assert(into[i].1.path == p);
        }
    }
}

// ----------------------------------------------------------------------------------------------
// The tokens
// ----------------------------------------------------------------------------------------------

/// Whether node `i` of a syntax tree is an identifier token with a text: a leaf whose kind ends in
/// `identifier` and whose bytes are those of the text.
pub open spec fn is_name_at(nodes: Seq<SyntaxView>, content: Seq<char>, name: Seq<char>, i: int) -> bool {
    let bytes = hashing::utf8(content);
    let n = nodes[i];
    &&& 0 <= i < nodes.len()
    &&& n.children == 0
    &&& exists|head: Seq<char>| n.kind == #[trigger] (head + "identifier"@)
    &&& n.start <= n.end <= bytes.len()
    &&& bytes.subrange(n.start as int, n.end as int) == hashing::utf8(name)
}

/// Whether an identifier token of a file with a text stands at a line and a column: lines count from one,
/// and both stop at the greatest number that they can hold.
pub open spec fn token_at(file: Seq<char>, content: Seq<char>, name: Seq<char>, line: u32, col: u32) -> bool {
    &&& rename::grammar_of(file) matches Some(grammar) && (rename::syntax_nodes(grammar, content) matches Some(nodes)
        && exists|i: int| #[trigger]
        is_name_at(nodes, content, name, i) && (line == nodes[i].row + 1 || (line == u32::MAX && nodes[i].row
            >= u32::MAX)) && (col == nodes[i].column || (col == u32::MAX && nodes[i].column > u32::MAX)))
}

proof fn lemma_is_token(node: SyntaxView, content: Seq<char>, name: Seq<char>, nodes: Seq<SyntaxView>, i: int)
    requires
        0 <= i < nodes.len(),
        nodes[i] == node,
    ensures
        rename::is_token(node, hashing::utf8(content), hashing::utf8(name)) == is_name_at(nodes, content, name, i),
{
    let p = "identifier"@;
    let s = node.kind;
    if text::ends(s, p) {
        assert(s =~= s.take(s.len() - p.len()) + p);
    }
    if exists|head: Seq<char>| s == #[trigger] (head + p) {
        let head = choose|head: Seq<char>| s == #[trigger] (head + p);
        assert(s.subrange(s.len() - p.len(), s.len() as int) =~= p);
    }
}

spec fn stands_as(nodes: Seq<SyntaxView>, content: Seq<char>, name: Seq<char>, i: int, at: (u32, u32)) -> bool {
    is_name_at(nodes, content, name, i) && at == (rename::line_of(nodes[i].row), rename::column_of(nodes[i].column))
}

proof fn lemma_tokens(nodes: Seq<SyntaxView>, content: Seq<char>, name: Seq<char>, n: nat, at: (u32, u32))
    requires
        n <= nodes.len(),
    ensures
        rename::tokens_upto(nodes, hashing::utf8(content), hashing::utf8(name), n).contains(at) == exists|i: int|
            i < n && #[trigger] stands_as(nodes, content, name, i, at),
    decreases n,
{
    if n > 0 {
        let last = n - 1;
        lemma_tokens(nodes, content, name, (n - 1) as nat, at);
        lemma_is_token(nodes[last], content, name, nodes, last);
        let rest = rename::tokens_upto(nodes, hashing::utf8(content), hashing::utf8(name), (n - 1) as nat);
        let here = (rename::line_of(nodes[last].row), rename::column_of(nodes[last].column));
        model::lemma_pushed(rest, here, at);
        if is_name_at(nodes, content, name, last) {
            assert(stands_as(nodes, content, name, last, here));
        }
        if exists|i: int| i < n && #[trigger] stands_as(nodes, content, name, i, at) {
            let i = choose|i: int| i < n && #[trigger] stands_as(nodes, content, name, i, at);
            assert(i < n - 1 || i == last);
        }
    }
}

/// The identifier tokens of a file with a text are all found, each at its line and column, and nothing
/// else is; they stand in the order of the file.
pub proof fn law_identifier_tokens(file: Seq<char>, content: Seq<char>, name: Seq<char>)
    ensures
        forall|line: u32, col: u32|
            rename::tokens_of(file, content, name).contains((line, col)) == #[trigger] token_at(
                file,
                content,
                name,
                line,
                col,
            ),
        forall|i: int, j: int|
            0 <= i < j < rename::tokens_of(file, content, name).len() ==> {
                let a = #[trigger] rename::tokens_of(file, content, name)[i];
                let b = #[trigger] rename::tokens_of(file, content, name)[j];
                a.0 < b.0 || (a.0 == b.0 && a.1 <= b.1)
            },
{
    if let Some(grammar) = rename::grammar_of(file) {
        if let Some(nodes) = rename::syntax_nodes(grammar, content) {
            let s = rename::tokens_upto(nodes, hashing::utf8(content), hashing::utf8(name), nodes.len());
            let keys = rename::position_keys(s);
            order::law_sorting_keeps(s, keys);
            order::law_stable_order_exists(keys);
            order::law_sorted_in_order(keys);
            let all = rename::tokens_of(file, content, name);
            let sorted = order::arranged(keys, order::order_of(keys));
            assert forall|line: u32, col: u32| all.contains((line, col)) == #[trigger] token_at(
                file,
                content,
                name,
                line,
                col,
            ) by {
                lemma_tokens(nodes, content, name, nodes.len(), (line, col));
                if all.contains((line, col)) {
                    let i = choose|i: int|
                        i < nodes.len() && #[trigger] stands_as(nodes, content, name, i, (line, col));
                    assert(is_name_at(nodes, content, name, i));
                }
                if token_at(file, content, name, line, col) {
                    let i = choose|i: int| #[trigger]
                        is_name_at(nodes, content, name, i) && (line == nodes[i].row + 1 || (line == u32::MAX
                            && nodes[i].row >= u32::MAX)) && (col == nodes[i].column || (col == u32::MAX
                            && nodes[i].column > u32::MAX));
                    assert(stands_as(nodes, content, name, i, (line, col)));
                }
            }
            assert forall|i: int, j: int| 0 <= i < j < all.len() implies {
                let a = #[trigger] all[i];
                let b = #[trigger] all[j];
                a.0 < b.0 || (a.0 == b.0 && a.1 <= b.1)
            } by {
                assert(!order::key_lt(sorted[j], sorted[i]));
            }
        }
    }
}

// ----------------------------------------------------------------------------------------------
// The plan
// ----------------------------------------------------------------------------------------------

/// Whether entry `i` is what came of reading a file: the first for it.
pub open spec fn read_at(reads: Seq<FileRead>, path: Seq<char>, i: int) -> bool {
    &&& 0 <= i < reads.len()
    &&& reads[i].path@ == path
    &&& forall|k: int| 0 <= k < i ==> (#[trigger] reads[k]).path@ != path
}

/// Whether a file was read, as a text.
pub open spec fn was_read(reads: Seq<FileRead>, path: Seq<char>, content: Seq<char>) -> bool {
    exists|i: int| #[trigger] read_at(reads, path, i) && (reads[i].content matches Ok(c) && c@ == content)
}

/// Whether a file was read.
pub open spec fn is_readable(reads: Seq<FileRead>, path: Seq<char>) -> bool {
    exists|content: Seq<char>| #[trigger] was_read(reads, path, content)
}

proof fn lemma_read_from(reads: Seq<FileRead>, path: Seq<char>, from: int)
    requires
        0 <= from,
        forall|k: int| 0 <= k < from && k < reads.len() ==> (#[trigger] reads[k]).path@ != path,
    ensures
        forall|content: Seq<char>|
            (rename::read_from(reads, path, from) == Ok::<Seq<char>, Seq<char>>(content)) == #[trigger] was_read(
                reads,
                path,
                content,
            ),
    decreases reads.len() - from,
{
    if from < reads.len() {
        if reads[from].path@ == path {
            assert(read_at(reads, path, from));
            assert forall|content: Seq<char>|
                (rename::read_from(reads, path, from) == Ok::<Seq<char>, Seq<char>>(content)) == #[trigger] was_read(
                    reads,
                    path,
                    content,
                ) by {
                if was_read(reads, path, content) {
                    let i = choose|i: int| #[trigger]
                        read_at(reads, path, i) && (reads[i].content matches Ok(c) && c@ == content);
                    assert(i == from) by {
                        if i > from {
                            assert(reads[from].path@ != path);
                        }
                    }
                }
            }
        } else {
            lemma_read_from(reads, path, from + 1);
        }
    }
}

/// Whether an edit is one of a rename: at an identifier token that is the old name, in an implicated file
/// that was read, from the old name to the new, with the confidence of the file.
pub open spec fn is_edit(
    files: Map<Seq<char>, u32>,
    reads: Seq<FileRead>,
    old: Seq<char>,
    new: Seq<char>,
    e: PlannedEdit,
) -> bool {
    &&& files.dom().contains(e.file)
    &&& e.confidence == files[e.file]
    &&& e.old == old
    &&& e.new == new
    &&& exists|content: Seq<char>| #[trigger]
        was_read(reads, e.file, content) && token_at(e.file, content, old, e.line, e.col)
}

proof fn lemma_edits_in(
    file: Seq<char>,
    confidence: u32,
    content: Seq<char>,
    old: Seq<char>,
    new: Seq<char>,
    e: PlannedEdit,
)
    ensures
        rename::edits_in(file, confidence, content, old, new).contains(e) == (e.file == file && e.confidence
            == confidence && e.old == old && e.new == new && token_at(file, content, old, e.line, e.col)),
{
    law_identifier_tokens(file, content, old);
    let hits = rename::tokens_of(file, content, old);
    let edits = rename::edits_in(file, confidence, content, old, new);
    assert(hits.contains((e.line, e.col)) == token_at(file, content, old, e.line, e.col));
    if edits.contains(e) {
        let i = choose|i: int| 0 <= i < edits.len() && edits[i] == e;
        assert(hits[i] == (e.line, e.col));
    }
    if e.file == file && e.confidence == confidence && e.old == old && e.new == new && token_at(
        file,
        content,
        old,
        e.line,
        e.col,
    ) {
        let i = choose|i: int| 0 <= i < hits.len() && hits[i] == (e.line, e.col);
        assert(edits[i] == e);
    }
}

proof fn lemma_all_edits(
    files: Map<Seq<char>, u32>,
    keys: Seq<Seq<char>>,
    reads: Seq<FileRead>,
    old: Seq<char>,
    new: Seq<char>,
    apply: bool,
    n: nat,
    e: PlannedEdit,
)
    requires
        n <= keys.len(),
        forall|k: int| 0 <= k < keys.len() ==> files.dom().contains(#[trigger] keys[k]),
    ensures
        rename::edits_upto(files, keys, reads, old, new, apply, n) matches Ok(edits) ==> edits.contains(e) == (is_edit(
            files,
            reads,
            old,
            new,
            e,
        ) && keys.take(n as int).contains(e.file)),
    decreases n,
{
    if n > 0 {
        let m = (n - 1) as nat;
        let file = keys[m as int];
        lemma_all_edits(files, keys, reads, old, new, apply, m, e);
        lemma_read_from(reads, file, 0);
        assert(keys.take(n as int) =~= keys.take(m as int).push(file));
        model::lemma_pushed(keys.take(m as int), file, e.file);
        if rename::edits_upto(files, keys, reads, old, new, apply, n) is Ok {
            let rest = rename::edits_upto(files, keys, reads, old, new, apply, m)->Ok_0;
            match rename::read_from(reads, file, 0) {
                Ok(content) => {
                    assert(was_read(reads, file, content));
                    let more = rename::edits_in(file, files[file], content, old, new);
                    lemma_edits_in(file, files[file], content, old, new, e);
                    model::lemma_joined(rest, more, e);
                },
                Err(_) => {
                    assert forall|content: Seq<char>| !#[trigger] was_read(reads, file, content) by {}
                },
            }
        }
    }
}

/// Whether every implicated file was read.
pub open spec fn all_read(files: Map<Seq<char>, u32>, reads: Seq<FileRead>) -> bool {
    forall|p: Seq<char>| #[trigger]
        files.dom().contains(p) ==> is_readable(reads, p)
}

proof fn lemma_edits_ok(
    files: Map<Seq<char>, u32>,
    keys: Seq<Seq<char>>,
    reads: Seq<FileRead>,
    old: Seq<char>,
    new: Seq<char>,
    apply: bool,
    n: nat,
)
    requires
        n <= keys.len(),
    ensures
        rename::edits_upto(files, keys, reads, old, new, apply, n) is Ok <==> !apply || forall|k: int|
            0 <= k < n ==> is_readable(reads, #[trigger] keys[k]),
        rename::edits_upto(files, keys, reads, old, new, apply, n) matches Err(f) ==> f is Io,
    decreases n,
{
    if n > 0 {
        let m = (n - 1) as nat;
        let file = keys[m as int];
        lemma_edits_ok(files, keys, reads, old, new, apply, m);
        lemma_read_from(reads, file, 0);
        match rename::read_from(reads, file, 0) {
            Ok(content) => {
                assert(was_read(reads, file, content));
            },
            Err(_) => {
                assert forall|content: Seq<char>| !#[trigger] was_read(reads, file, content) by {}
            },
        }
    }
}

/// The neighbours' files can be listed.
proof fn lemma_listable(g: GraphView, uid: Seq<char>, path: Seq<char>)
    ensures
        ({
            let files = rename::implicated(g, uid, path);
            ordmap::lists_keys(files, ordmap::sorted_keys(files))
        }),
{
    let files = rename::implicated(g, uid, path);
    law_rename_files(g, uid, path);
    let n = 1 + g.edges.len() + g.edges.len();
    let end = |i: int| if i <= g.edges.len() {
        g.node(g.edges[i - 1].dst)
    } else {
        g.node(g.edges[i - 1 - g.edges.len()].src)
    };
    let name = |i: int| if i == 0 {
        path
    } else {
        end(i)->0.path
    };
    let hit = |i: int| i == 0 || (end(i) is Some && files.dom().contains(name(i)));
    let r = order::lemma_listed(n as nat, hit, name);
    assert forall|p: Seq<char>| #[trigger] r.contains(p) == files.dom().contains(p) by {
        assert(r.contains(p) == exists|i: int| 0 <= i < n && #[trigger] hit(i) && name(i) == p);
        if files.dom().contains(p) {
            if p == path {
                assert(hit(0) && name(0) == p);
            } else {
                let e = choose|e: EdgeView| #[trigger] implicated_by(g, uid, p, e);
                let k = choose|k: int| 0 <= k < g.edges.len() && g.edges[k] == e;
                if e.src == uid && (g.node(e.dst) matches Some(x) && x.path == p) {
                    assert(hit(k + 1) && name(k + 1) == p);
                } else {
                    assert(hit(k + 1 + g.edges.len()) && name(k + 1 + g.edges.len()) == p);
                }
            }
        }
        if r.contains(p) {
            let i = choose|i: int| 0 <= i < n && #[trigger] hit(i) && name(i) == p;
            assert(files.dom().contains(p));
        }
    }
    assert(ordmap::lists_keys(files, r));
}

/// Whether a name is taken: a node has it as its short name.
pub open spec fn is_taken(g: GraphView, name: Seq<char>) -> bool {
    exists|x: NodeView| #[trigger] g.nodes.contains(x) && x.name == name
}

/// What comes of a rename of one symbol. It is refused where the new name is taken and that is not to be
/// forced, and where the edits are to be written and a file was not read. Else there is a plan: it lists
/// the implicated files in order; every identifier token of an implicated file that is the old name has
/// an edit, in whatever line of the file it stands, and nothing else has; the edits stand in the order of
/// files, lines and columns; and they are to be written where that was asked and there is one.
pub proof fn law_rename_plan(g: GraphView, old: Seq<char>, new: Seq<char>, opts: RenameOptions, reads: Seq<FileRead>)
    requires
        rename::meaning(g, old, text::opt_view(opts.uid)) is One,
    ensures
        ({
            let m = rename::meaning(g, old, text::opt_view(opts.uid));
            let files = rename::implicated(g, m->One_0, m->One_1);
            let r = rename::renamed(g, old, new, opts, reads);
            let refused = !opts.force && is_taken(g, new);
            &&& (r matches RenameView::Fault(RenameFault::Collision(n, _, _)) && n == new) <==> refused
            &&& (r matches RenameView::Fault(RenameFault::Io(_, _))) <==> !refused && opts.apply && !all_read(files, reads)
            &&& r is Plan <==> !refused && (!opts.apply || all_read(files, reads))
            &&& r matches RenameView::Plan { target, applied, files: listed, edits } ==> {
                &&& target == m->One_0
                &&& order::ascending(listed)
                &&& forall|p: Seq<char>| #[trigger] listed.contains(p) == files.dom().contains(p)
                &&& forall|e: PlannedEdit| #[trigger] edits.contains(e) == is_edit(files, reads, old, new, e)
                &&& applied <==> opts.apply && exists|e: PlannedEdit| #[trigger] is_edit(files, reads, old, new, e)
                &&& forall|i: int, j: int|
                    0 <= i < j < edits.len() ==> {
                        let a = #[trigger] edits[i];
                        let b = #[trigger] edits[j];
                        order::text_lt(a.file, b.file) || (a.file == b.file && (a.line < b.line || (a.line == b.line
                            && a.col <= b.col)))
                    }
            }
        }),
{
    let m = rename::meaning(g, old, text::opt_view(opts.uid));
    let files = rename::implicated(g, m->One_0, m->One_1);
    let keys = ordmap::sorted_keys(files);
    lemma_listable(g, m->One_0, m->One_1);
    let found = rename::matching(g.nodes, new, false, g.nodes.len());
    let taken = rename::colliding(g, new);
    order::law_sorting_keeps(found, blast::node_keys(found));
    assert(g.nodes.take(g.nodes.len() as int) =~= g.nodes);
    assert forall|x: NodeView| #[trigger] found.contains(x) == (g.nodes.contains(x) && x.name == new) by {
        lemma_matching(g.nodes, new, false, g.nodes.len(), x);
    }
    lemma_nonempty(found);
    assert(taken.len() > 0 <==> is_taken(g, new)) by {
        if is_taken(g, new) {
            let x = choose|x: NodeView| #[trigger] g.nodes.contains(x) && x.name == new;
            assert(found.contains(x));
        }
        if taken.len() > 0 {
            assert(found.contains(found[0]));
        }
    }
    lemma_edits_ok(files, keys, reads, old, new, opts.apply, keys.len());
    assert(all_read(files, reads) <==> forall|k: int|
        0 <= k < keys.len() ==> is_readable(reads, #[trigger] keys[k])) by {
        lemma_all_read(files, keys, reads);
    }
    assert(keys.take(keys.len() as int) =~= keys);
    assert forall|k: int| 0 <= k < keys.len() implies files.dom().contains(#[trigger] keys[k]) by {
        assert(keys.contains(keys[k]));
    }
    if let Ok(plain) = rename::edits_upto(files, keys, reads, old, new, opts.apply, keys.len()) {
        let edits = rename::sorted_edits(plain);
        rename::lemma_edits_in_order(plain);
        assert forall|e: PlannedEdit| #[trigger] edits.contains(e) == is_edit(files, reads, old, new, e) by {
            lemma_all_edits(files, keys, reads, old, new, opts.apply, keys.len(), e);
        }
        lemma_nonempty(edits);
        if edits.len() > 0 {
            assert(edits.contains(edits[0]));
            assert(is_edit(files, reads, old, new, edits[0]));
        }
        if exists|e: PlannedEdit| #[trigger] is_edit(files, reads, old, new, e) {
            let e = choose|e: PlannedEdit| #[trigger] is_edit(files, reads, old, new, e);
            assert(edits.contains(e));
        }
        assert forall|i: int, j: int| 0 <= i < j < edits.len() implies {
            let a = #[trigger] edits[i];
            let b = #[trigger] edits[j];
            order::text_lt(a.file, b.file) || (a.file == b.file && (a.line < b.line || (a.line == b.line && a.col
                <= b.col)))
        } by {
            let ks = rename::edit_keys(edits);
            assert(!order::key_lt(ks[j], ks[i]));
            order::lemma_text_total(edits[i].file, edits[j].file);
        }
    }
}

proof fn lemma_all_read(files: Map<Seq<char>, u32>, keys: Seq<Seq<char>>, reads: Seq<FileRead>)
    requires
        ordmap::lists_keys(files, keys),
    ensures
        all_read(files, reads) <==> forall|k: int|
            0 <= k < keys.len() ==> is_readable(reads, #[trigger] keys[k]),
{
    if all_read(files, reads) {
        assert forall|k: int| 0 <= k < keys.len() implies is_readable(reads, #[trigger] keys[k]) by {
            assert(keys.contains(keys[k]));
            assert(files.dom().contains(keys[k]));
        }
    }
    if forall|k: int|
        0 <= k < keys.len() ==> is_readable(reads, #[trigger] keys[k]) {
        assert forall|p: Seq<char>| #[trigger] files.dom().contains(p) implies is_readable(reads, p) by {
            assert(keys.contains(p));
            let k = choose|k: int| 0 <= k < keys.len() && keys[k] == p;
            assert(is_readable(reads, keys[k]));
        }
    }
}
/// What is to be read for a rename are the files of its plan, whatever is read of them; where there is
/// no plan to make, nothing is to be read.
pub proof fn law_files_read(g: GraphView, old: Seq<char>, new: Seq<char>, opts: RenameOptions, reads: Seq<FileRead>)
    ensures
        ({
            let files = rename::files_to_read(g, old, new, opts);
            match rename::renamed(g, old, new, opts, reads) {
                RenameView::Plan { files: planned, .. } => files == planned,
                RenameView::Candidates(..) => files.len() == 0,
                RenameView::Fault(_) => rename::meaning(g, old, text::opt_view(opts.uid)) is Fault ==> files.len() == 0,
            }
        }),
        !opts.force && rename::colliding(g, new).len() > 0 ==> rename::files_to_read(g, old, new, opts).len() == 0,
{
}

} // verus!
