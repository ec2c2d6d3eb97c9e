//! What the knowledge plane says of a repository, told by its documents.
use vstd::prelude::*;

use crate::growth;
use crate::knowledge;
use crate::knowledge::{DocModel, DocRef, DocRefKind, KnowledgeState, MentionCounts, Tier};
use crate::model;
use crate::model::{EdgeKind, EdgeView, GraphView, NodeKind, NodeView, Provenance, Span};
use crate::order;

verus! {

/// The identifier of a document.
pub open spec fn doc_at(repo: Seq<char>, path: Seq<char>) -> Seq<char> {
    model::uid_text("doc"@, repo, path, path, ""@)
}

/// The identifier of a section of a document.
pub open spec fn section_at(repo: Seq<char>, path: Seq<char>, anchor: Seq<char>) -> Seq<char> {
    model::uid_text("doc"@, repo, path, path + seq!['#'] + anchor, ""@)
}

proof fn lemma_section_at(repo: Seq<char>, path: Seq<char>, anchor: Seq<char>)
    ensures
        knowledge::section_id(repo, path, anchor) == section_at(repo, path, anchor),
        knowledge::section_fqn(path, anchor) == path + seq!['#'] + anchor,
{
    reveal_strlit("#");
    assert("#"@ =~= seq!['#']);
}

// ----------------------------------------------------------------------------------------------
// Documents and sections
// ----------------------------------------------------------------------------------------------

/// Whether a node is that of a document: named by what follows the last slash of its path, from the start
/// of its first section to the end of its last.
pub open spec fn is_doc_node(repo: Seq<char>, doc: DocModel, x: NodeView) -> bool {
    &&& x.uid == doc_at(repo, doc.path@)
    &&& x.kind == NodeKind::Doc
    &&& x.fqn == doc.path@ && x.path == doc.path@
    &&& !x.name.contains('/')
    &&& doc.path@ == x.name || exists|dir: Seq<char>| doc.path@ == #[trigger] (dir + seq!['/'] + x.name)
    &&& x.provenance == Provenance::Extracted && x.confidence == 1_000_000_000
    &&& doc.sections@.len() == 0 ==> x.span == (Span { start_line: 0, start_col: 0, end_line: 0, end_col: 0 })
    &&& doc.sections@.len() > 0 ==> {
        let first = doc.sections@[0].span;
        let last = doc.sections@[doc.sections@.len() - 1].span;
        x.span.start_line == first.start_line && x.span.start_col == first.start_col && x.span.end_line == last.end_line
            && x.span.end_col == last.end_col
    }
}

/// Whether a node is that of section `s` of a document.
pub open spec fn is_section_node(repo: Seq<char>, doc: DocModel, s: int, x: NodeView) -> bool {
    let section = doc.sections@[s];
    0 <= s < doc.sections@.len() && x == (NodeView {
        uid: section_at(repo, doc.path@, section.anchor@),
        kind: NodeKind::DocSection,
        name: section.heading@,
        fqn: doc.path@ + seq!['#'] + section.anchor@,
        path: doc.path@,
        span: section.span,
        provenance: Provenance::Extracted,
        confidence: 1_000_000_000,
    })
}

/// Whether an edge says that a document contains its section `s`.
pub open spec fn contains_gives(repo: Seq<char>, doc: DocModel, s: int, e: EdgeView) -> bool {
    0 <= s < doc.sections@.len() && e == (EdgeView {
        src: doc_at(repo, doc.path@),
        dst: section_at(repo, doc.path@, doc.sections@[s].anchor@),
        kind: EdgeKind::Contains,
        provenance: Provenance::Extracted,
        confidence: 1_000_000_000,
    })
}

spec fn section_nodes(repo: Seq<char>, doc: DocModel, n: int, x: NodeView) -> bool {
    exists|s: int| s < n && #[trigger] is_section_node(repo, doc, s, x)
}

spec fn section_edges(repo: Seq<char>, doc: DocModel, n: int, e: EdgeView) -> bool {
    exists|s: int| s < n && #[trigger] contains_gives(repo, doc, s, e)
}

proof fn lemma_sections(g: GraphView, repo: Seq<char>, doc: DocModel, n: nat)
    requires
        n <= doc.sections@.len(),
    ensures
        growth::builds(
            g,
            knowledge::with_sections(g, repo, doc, n),
            |x: NodeView| section_nodes(repo, doc, n as int, x),
            |e: EdgeView| section_edges(repo, doc, n as int, e),
        ),
    decreases n,
{
    let p3 = |x: NodeView| section_nodes(repo, doc, n as int, x);
    let q3 = |e: EdgeView| section_edges(repo, doc, n as int, e);
    if n > 0 {
        let m = (n - 1) as nat;
        let last = n - 1;
        lemma_sections(g, repo, doc, m);
        let section = doc.sections@[last];
        lemma_section_at(repo, doc.path@, section.anchor@);
        let b = knowledge::with_sections(g, repo, doc, m);
        let h = knowledge::with_sections(g, repo, doc, n);
        let node = knowledge::section_fact(repo, doc.path@, section);
        let x = model::fact_edge(
            doc_at(repo, doc.path@),
            section_at(repo, doc.path@, section.anchor@),
            EdgeKind::Contains,
        );
        let p = |x: NodeView| section_nodes(repo, doc, m as int, x);
        let q = |e: EdgeView| section_edges(repo, doc, m as int, e);
        let p2 = |y: NodeView| y == node;
        let q2 = |e: EdgeView| e == x;
        growth::lemma_builds_one(b, node, x, p2, q2);
        assert(is_section_node(repo, doc, last, node));
        assert(contains_gives(repo, doc, last, x));
        assert forall|y: NodeView| #[trigger] p3(y) == (p(y) || p2(y)) by {
            if p3(y) {
                let s = choose|s: int| s < n && #[trigger] is_section_node(repo, doc, s, y);
                assert(s < m || s == last);
            }
        }
        assert forall|e: EdgeView| #[trigger] q3(e) == (q(e) || q2(e)) by {
            if q3(e) {
                let s = choose|s: int| s < n && #[trigger] contains_gives(repo, doc, s, e);
                assert(s < m || s == last);
            }
        }
        growth::lemma_builds_more(g, b, h, p, q, p2, q2, p3, q3);
    } else {
        growth::lemma_builds_none(g, p3, q3);
    }
}

/// Whether a node is that of a document or of one of its sections.
pub open spec fn doc_node(repo: Seq<char>, doc: DocModel, x: NodeView) -> bool {
    is_doc_node(repo, doc, x) || exists|s: int| #[trigger] is_section_node(repo, doc, s, x)
}

/// Whether an edge says that a document contains one of its sections.
pub open spec fn doc_contains(repo: Seq<char>, doc: DocModel, e: EdgeView) -> bool {
    exists|s: int| #[trigger] contains_gives(repo, doc, s, e)
}

proof fn lemma_doc_fact(repo: Seq<char>, doc: DocModel, x: NodeView)
    ensures
        is_doc_node(repo, doc, x) == (x == knowledge::doc_fact(repo, doc)),
{
    let path = doc.path@;
    crate::text::lemma_last_position(path, '/');
    let name = crate::text::after_last(path, '/');
    match crate::text::last_position(path, '/') {
        Some(i) => {
            let dir = path.take(i);
            assert(path =~= dir + seq!['/'] + name);
            if name.contains('/') {
                let k = choose|k: int| 0 <= k < name.len() && name[k] == '/';
                assert(path[i + 1 + k] == '/');
            }
            if is_doc_node(repo, doc, x) {
                if path == x.name {
                    assert(path.contains(path[i]));
                }
                let d = choose|d: Seq<char>| path == #[trigger] (d + seq!['/'] + x.name);
                assert(path[d.len() as int] == '/');
                if d.len() < i {
                    assert(x.name[i - d.len() - 1] == '/');
                    assert(x.name.contains(x.name[i - d.len() - 1]));
                }
                assert(path.skip(d.len() as int + 1) =~= x.name);
                assert(x.name == name);
            }
        },
        None => {
            if is_doc_node(repo, doc, x) {
                if path != x.name {
                    let d = choose|d: Seq<char>| path == #[trigger] (d + seq!['/'] + x.name);
                    assert(path[d.len() as int] == '/');
                    assert(path.contains(path[d.len() as int]));
                }
            }
        },
    }
}

proof fn lemma_documents(g: GraphView, repo: Seq<char>, docs: Seq<DocModel>, n: nat)
    requires
        n <= docs.len(),
    ensures
        growth::builds(
            g,
            knowledge::with_documents(g, repo, docs, n),
            |x: NodeView| exists|d: int| 0 <= d < n && doc_node(repo, #[trigger] docs[d], x),
            |e: EdgeView| exists|d: int| 0 <= d < n && doc_contains(repo, #[trigger] docs[d], e),
        ),
    decreases n,
{
    let p3 = |x: NodeView| exists|d: int| 0 <= d < n && doc_node(repo, #[trigger] docs[d], x);
    let q3 = |e: EdgeView| exists|d: int| 0 <= d < n && doc_contains(repo, #[trigger] docs[d], e);
    if n > 0 {
        let m = (n - 1) as nat;
        let last = n - 1;
        lemma_documents(g, repo, docs, m);
        let doc = docs[last];
        let size = doc.sections@.len();
        let b = knowledge::with_documents(g, repo, docs, m);
        let c = b.with_node(knowledge::doc_fact(repo, doc));
        let h = knowledge::with_documents(g, repo, docs, n);
        let p = |x: NodeView| exists|d: int| 0 <= d < m && doc_node(repo, #[trigger] docs[d], x);
        let q = |e: EdgeView| exists|d: int| 0 <= d < m && doc_contains(repo, #[trigger] docs[d], e);
        let p1 = |x: NodeView| x == knowledge::doc_fact(repo, doc);
        let q1 = |e: EdgeView| false;
        let p2 = |x: NodeView| section_nodes(repo, doc, size as int, x);
        let q2 = |e: EdgeView| section_edges(repo, doc, size as int, e);
        let both = |x: NodeView| p(x) || p1(x);
        growth::lemma_builds_node(b, knowledge::doc_fact(repo, doc), p1, q1);
        growth::lemma_builds_more(g, b, c, p, q, p1, q1, both, q);
        lemma_sections(c, repo, doc, size);
        assert forall|x: NodeView| #[trigger] p3(x) == (both(x) || p2(x)) by {
            lemma_doc_fact(repo, doc, x);
            if exists|s: int| #[trigger] is_section_node(repo, doc, s, x) {
                let s = choose|s: int| #[trigger] is_section_node(repo, doc, s, x);
                assert(s < size);
            }
            assert(doc_node(repo, doc, x) == (p1(x) || p2(x)));
            if p3(x) {
                let d = choose|d: int| 0 <= d < n && doc_node(repo, #[trigger] docs[d], x);
                assert(d < m || d == last);
            }
            if p(x) {
                let d = choose|d: int| 0 <= d < m && doc_node(repo, #[trigger] docs[d], x);
                assert(docs[d] == docs[d]);
            }
            if p1(x) || p2(x) {
                assert(doc_node(repo, docs[last], x));
            }
        }
        assert forall|e: EdgeView| #[trigger] q3(e) == (q(e) || q2(e)) by {
            if exists|s: int| #[trigger] contains_gives(repo, doc, s, e) {
                let s = choose|s: int| #[trigger] contains_gives(repo, doc, s, e);
                assert(s < size);
            }
            assert(doc_contains(repo, doc, e) == q2(e));
            if q3(e) {
                let d = choose|d: int| 0 <= d < n && doc_contains(repo, #[trigger] docs[d], e);
                assert(d < m || d == last);
            }
            if q(e) {
                let d = choose|d: int| 0 <= d < m && doc_contains(repo, #[trigger] docs[d], e);
                assert(docs[d] == docs[d]);
            }
            if q2(e) {
                assert(doc_contains(repo, docs[last], e));
            }
        }
        growth::lemma_builds_more(g, c, h, both, q, p2, q2, p3, q3);
    } else {
        growth::lemma_builds_none(g, p3, q3);
    }
}

// ----------------------------------------------------------------------------------------------
// Mentions
// ----------------------------------------------------------------------------------------------

/// Whether a reference names node `i`: a path names what stands for that file; code names what has it as
/// its qualified name, and inline code that is the qualified name of nothing names what has it as its
/// short name.
pub open spec fn is_named(nodes: Seq<NodeView>, r: DocRef, i: int) -> bool {
    let k = nodes[i].kind;
    &&& 0 <= i < nodes.len()
    &&& match r.kind {
        DocRefKind::PathRef => nodes[i].path == r.text@ && (k == NodeKind::Module || k == NodeKind::Table || k
            == NodeKind::ApiOperation || k == NodeKind::GraphqlField || k == NodeKind::Doc),
        DocRefKind::FenceToken => nodes[i].fqn == r.text@,
        DocRefKind::InlineCode => nodes[i].fqn == r.text@ || (nodes[i].name == r.text@ && forall|j: int|
            0 <= j < nodes.len() ==> (#[trigger] nodes[j]).fqn != r.text@),
    }
}

/// Whether an edge says that a section mentions node `i`, which a reference names: an ambiguity where the
/// reference names another too; else a fact for a path, and an inference for code, the surer where the
/// qualified name is given. A section does not mention its own document.
pub open spec fn ref_gives(
    nodes: Seq<NodeView>,
    section: Seq<char>,
    own: Seq<char>,
    r: DocRef,
    i: int,
    e: EdgeView,
) -> bool {
    let alone = forall|j: int| #[trigger] is_named(nodes, r, j) ==> j == i;
    &&& is_named(nodes, r, i)
    &&& e.src == section
    &&& e.dst == nodes[i].uid
    &&& e.dst != own
    &&& e.kind == EdgeKind::Mentions
    &&& !alone ==> e.provenance == Provenance::Ambiguous && e.confidence == 350_000_000
    &&& alone && r.kind == DocRefKind::PathRef ==> e.provenance == Provenance::Extracted && e.confidence == 950_000_000
    &&& alone && r.kind != DocRefKind::PathRef && nodes[i].fqn == r.text@ ==> e.provenance == Provenance::Inferred
        && e.confidence == 800_000_000
    &&& alone && r.kind != DocRefKind::PathRef && nodes[i].fqn != r.text@ ==> e.provenance == Provenance::Inferred
        && e.confidence == 700_000_000
}

spec fn by_tier(nodes: Seq<NodeView>, tier: Tier, text: Seq<char>, i: int) -> bool {
    0 <= i < nodes.len() && knowledge::names(nodes[i], tier, text)
}

proof fn lemma_named_nodes(nodes: Seq<NodeView>, tier: Tier, text: Seq<char>, n: nat)
    requires
        n <= nodes.len(),
    ensures
        knowledge::named_nodes(nodes, tier, text, n).len() == order::counted(|i: int| by_tier(nodes, tier, text, i), n),
        forall|u: Seq<char>| #[trigger]
            knowledge::named_nodes(nodes, tier, text, n).contains(u) == exists|i: int|
                i < n && #[trigger] by_tier(nodes, tier, text, i) && nodes[i].uid == u,
    decreases n,
{
    if n > 0 {
        let m = (n - 1) as nat;
        let last = n - 1;
        lemma_named_nodes(nodes, tier, text, m);
        let rest = knowledge::named_nodes(nodes, tier, text, m);
        let all = knowledge::named_nodes(nodes, tier, text, n);
        assert(by_tier(nodes, tier, text, last) == knowledge::names(nodes[last], tier, text));
        assert forall|u: Seq<char>| #[trigger] all.contains(u) == exists|i: int|
            i < n && #[trigger] by_tier(nodes, tier, text, i) && nodes[i].uid == u by {
            model::lemma_pushed(rest, nodes[last].uid, u);
            assert(rest.contains(u) == exists|i: int|
                i < m && #[trigger] by_tier(nodes, tier, text, i) && nodes[i].uid == u);
            if exists|i: int| i < n && #[trigger] by_tier(nodes, tier, text, i) && nodes[i].uid == u {
                let i = choose|i: int| i < n && #[trigger] by_tier(nodes, tier, text, i) && nodes[i].uid == u;
                assert(i < m || i == last);
            }
        }
    }
}

/// Which tier a reference is looked up at.
spec fn tier_of(g: GraphView, r: DocRef) -> Tier {
    if r.kind == DocRefKind::PathRef {
        Tier::Path
    } else if r.kind == DocRefKind::FenceToken || knowledge::all_named(g, Tier::Fqn, r.text@).len() > 0 {
        Tier::Fqn
    } else {
        Tier::Name
    }
}

proof fn lemma_tier(g: GraphView, r: DocRef, i: int)
    ensures
        is_named(g.nodes, r, i) == by_tier(g.nodes, tier_of(g, r), r.text@, i),
{
    lemma_named_nodes(g.nodes, Tier::Fqn, r.text@, g.nodes.len());
    let hit = |i: int| by_tier(g.nodes, Tier::Fqn, r.text@, i);
    order::lemma_counted(hit, g.nodes.len());
    if r.kind == DocRefKind::InlineCode {
        if knowledge::all_named(g, Tier::Fqn, r.text@).len() > 0 {
            let j = choose|j: int| 0 <= j < g.nodes.len() && #[trigger] hit(j);
            assert(g.nodes[j].fqn == r.text@);
        } else {
            assert forall|j: int| 0 <= j < g.nodes.len() implies (#[trigger] g.nodes[j]).fqn != r.text@ by {
                assert(!hit(j));
            }
        }
    }
}

proof fn lemma_found(g: GraphView, r: DocRef)
    ensures
        ({
            let f = knowledge::found(g, r);
            &&& forall|u: Seq<char>| #[trigger]
                f.uids.contains(u) == exists|i: int| #[trigger] is_named(g.nodes, r, i) && g.nodes[i].uid == u
            &&& f.uids.len() == 0 <==> forall|i: int| !#[trigger] is_named(g.nodes, r, i)
            &&& f.uids.len() <= 1 <==> forall|i: int, j: int| #[trigger]
                is_named(g.nodes, r, i) && #[trigger] is_named(g.nodes, r, j) ==> i == j
        }),
{
    let tier = tier_of(g, r);
    let f = knowledge::found(g, r);
    let n = g.nodes.len();
    lemma_named_nodes(g.nodes, tier, r.text@, n);
    let hit = |i: int| by_tier(g.nodes, tier, r.text@, i);
    order::lemma_counted(hit, n);
    assert(f.uids == knowledge::all_named(g, tier, r.text@));
    assert forall|i: int| #[trigger] is_named(g.nodes, r, i) == hit(i) by {
        lemma_tier(g, r, i);
    }
    assert forall|u: Seq<char>| #[trigger] f.uids.contains(u) == exists|i: int| #[trigger]
        is_named(g.nodes, r, i) && g.nodes[i].uid == u by {
        if f.uids.contains(u) {
            let i = choose|i: int|
                i < n && #[trigger] by_tier(g.nodes, tier, r.text@, i) && g.nodes[i].uid == u;
            assert(hit(i));
            assert(is_named(g.nodes, r, i));
        }
        if exists|i: int| #[trigger] is_named(g.nodes, r, i) && g.nodes[i].uid == u {
            let i = choose|i: int| #[trigger] is_named(g.nodes, r, i) && g.nodes[i].uid == u;
            assert(hit(i));
            assert(by_tier(g.nodes, tier, r.text@, i));
        }
    }
    if f.uids.len() == 0 {
        assert forall|i: int| !#[trigger] is_named(g.nodes, r, i) by {
            if is_named(g.nodes, r, i) {
                assert(hit(i));
            }
        }
    } else {
        let i = choose|i: int| 0 <= i < n && #[trigger] hit(i);
        assert(is_named(g.nodes, r, i));
    }
    if f.uids.len() <= 1 {
        assert forall|i: int, j: int| #[trigger] is_named(g.nodes, r, i) && #[trigger] is_named(g.nodes, r, j) implies i
            == j by {
            assert(hit(i) && hit(j));
        }
    } else {
        let (i, j) = choose|i: int, j: int| 0 <= i < j < n && #[trigger] hit(i) && #[trigger] hit(j);
        assert(is_named(g.nodes, r, i) && is_named(g.nodes, r, j));
    }
}

proof fn lemma_mention_edges(
    s: KnowledgeState,
    section: Seq<char>,
    own: Seq<char>,
    uids: Seq<Seq<char>>,
    prov: Provenance,
    conf: u32,
    n: nat,
)
    requires
        n <= uids.len(),
    ensures
        ({
            let t = knowledge::with_mention_edges(s, section, own, uids, prov, conf, n);
            &&& t.counts == s.counts
            &&& t.graph.nodes == s.graph.nodes
            &&& forall|d: Seq<char>| #[trigger]
                t.edged.contains(d) == (s.edged.contains(d) || (d != own && uids.take(n as int).contains(d)))
            &&& forall|e: EdgeView| #[trigger]
                t.graph.edges.contains(e) == (s.graph.edges.contains(e) || (e.dst != own && !s.edged.contains(e.dst)
                    && uids.take(n as int).contains(e.dst) && e == model::edge_of(
                    section,
                    e.dst,
                    EdgeKind::Mentions,
                    prov,
                    conf,
                )))
        }),
    decreases n,
{
    if n > 0 {
        let m = (n - 1) as nat;
        let last = n - 1;
        lemma_mention_edges(s, section, own, uids, prov, conf, m);
        let b = knowledge::with_mention_edges(s, section, own, uids, prov, conf, m);
        let t = knowledge::with_mention_edges(s, section, own, uids, prov, conf, n);
        let dst = uids[last];
        let x = model::edge_of(section, dst, EdgeKind::Mentions, prov, conf);
        assert(uids.take(n as int) =~= uids.take(m as int).push(dst));
        assert forall|d: Seq<char>| #[trigger] uids.take(n as int).contains(d) == (uids.take(m as int).contains(d) || d
            == dst) by {
            model::lemma_pushed(uids.take(m as int), dst, d);
        }
        if !(dst == own || b.edged.contains(dst)) {
            assert forall|d: Seq<char>| #[trigger] t.edged.contains(d) == (b.edged.contains(d) || d == dst) by {
                model::lemma_pushed(b.edged, dst, d);
            }
            assert forall|e: EdgeView| #[trigger] t.graph.edges.contains(e) == (b.graph.edges.contains(e) || e == x) by {
                model::lemma_pushed(b.graph.edges, x, e);
            }
        }
    } else {
        assert(uids.take(0) =~= Seq::empty());
    }
}

/// Whether a reference names a node of an identifier.
spec fn names_uid(nodes: Seq<NodeView>, r: DocRef, u: Seq<char>) -> bool {
    exists|i: int| #[trigger] is_named(nodes, r, i) && nodes[i].uid == u
}

/// Whether a reference names something other than the document it stands in.
pub open spec fn names_other(nodes: Seq<NodeView>, r: DocRef, own: Seq<char>) -> bool {
    exists|i: int| #[trigger] is_named(nodes, r, i) && nodes[i].uid != own
}

/// Whether a reference names two nodes.
pub open spec fn names_two(nodes: Seq<NodeView>, r: DocRef) -> bool {
    exists|i: int, j: int| #[trigger] is_named(nodes, r, i) && #[trigger] is_named(nodes, r, j) && i != j
}

/// Whether a reference names nothing.
pub open spec fn names_none(nodes: Seq<NodeView>, r: DocRef) -> bool {
    forall|i: int| !#[trigger] is_named(nodes, r, i)
}

proof fn lemma_mention(g: GraphView, s: KnowledgeState, section: Seq<char>, own: Seq<char>, r: DocRef)
    requires
        s.graph.nodes == g.nodes,
    ensures
        ({
            let t = knowledge::with_mention(s, section, own, r);
            &&& t.graph.nodes == g.nodes
            &&& forall|d: Seq<char>| #[trigger]
                t.edged.contains(d) == (s.edged.contains(d) || (d != own && names_uid(g.nodes, r, d)))
            &&& forall|e: EdgeView| #[trigger]
                t.graph.edges.contains(e) == (s.graph.edges.contains(e) || (!s.edged.contains(e.dst) && exists|i: int| #[trigger]
                    ref_gives(g.nodes, section, own, r, i, e)))
            &&& t.counts.linked == s.counts.linked + if names_other(g.nodes, r, own) {
                1nat
            } else {
                0
            }
            &&& t.counts.ambiguous == s.counts.ambiguous + if names_other(g.nodes, r, own) && names_two(g.nodes, r) {
                1nat
            } else {
                0
            }
            &&& t.counts.stale == s.counts.stale + if names_none(g.nodes, r) && r.kind != DocRefKind::FenceToken {
                1nat
            } else {
                0
            }
        }),
{
    let f = knowledge::found(s.graph, r);
    let t = knowledge::with_mention(s, section, own, r);
    lemma_found(s.graph, r);
    let many = f.uids.len() > 1;
    let nodes = g.nodes;
    assert(knowledge::has_other(f.uids, own, f.uids.len()) == names_other(nodes, r, own)) by {
        if knowledge::has_other(f.uids, own, f.uids.len()) {
            let k = choose|k: int| 0 <= k < f.uids.len() && #[trigger] f.uids[k] != own;
            assert(f.uids.contains(f.uids[k]));
            let i = choose|i: int| #[trigger] is_named(nodes, r, i) && nodes[i].uid == f.uids[k];
            assert(is_named(nodes, r, i));
        }
        if names_other(nodes, r, own) {
            let i = choose|i: int| #[trigger] is_named(nodes, r, i) && nodes[i].uid != own;
            assert(f.uids.contains(nodes[i].uid));
            let k = choose|k: int| 0 <= k < f.uids.len() && f.uids[k] == nodes[i].uid;
            assert(f.uids[k] != own);
        }
    }
    assert(many == names_two(nodes, r));
    let uids = f.uids;
    assert(uids.take(uids.len() as int) =~= uids);
    let prov = if many {
        Provenance::Ambiguous
    } else {
        f.provenance
    };
    let conf = if many {
        knowledge::KNOW_AMBIGUOUS
    } else {
        f.confidence
    };
    if uids.len() > 0 && knowledge::has_other(uids, own, uids.len()) {
        let counted = KnowledgeState {
            counts: MentionCounts {
                linked: s.counts.linked + 1,
                ambiguous: s.counts.ambiguous + if many {
                    1nat
                } else {
                    0
                },
                ..s.counts
            },
            ..s
        };
        lemma_mention_edges(counted, section, own, uids, prov, conf, uids.len());
    }
    assert forall|d: Seq<char>| #[trigger] t.edged.contains(d) == (s.edged.contains(d) || (d != own && names_uid(
        nodes,
        r,
        d,
    ))) by {
        assert(uids.contains(d) == names_uid(nodes, r, d));
        if d != own && names_uid(nodes, r, d) {
            let i = choose|i: int| #[trigger] is_named(nodes, r, i) && nodes[i].uid == d;
            assert(names_other(nodes, r, own));
            assert(uids.len() > 0);
        }
    }
    assert forall|e: EdgeView| #[trigger] t.graph.edges.contains(e) == (s.graph.edges.contains(e) || (!s.edged.contains(
        e.dst,
    ) && exists|i: int| #[trigger] ref_gives(nodes, section, own, r, i, e))) by {
        lemma_graded(s.graph, section, own, r, e);
        assert(uids.contains(e.dst) == names_uid(nodes, r, e.dst));
        if exists|i: int| #[trigger] ref_gives(nodes, section, own, r, i, e) {
            let i = choose|i: int| #[trigger] ref_gives(nodes, section, own, r, i, e);
            assert(is_named(nodes, r, i) && nodes[i].uid != own);
            assert(names_other(nodes, r, own));
            assert(uids.len() > 0);
        }
    }
}

proof fn lemma_graded(g: GraphView, section: Seq<char>, own: Seq<char>, r: DocRef, e: EdgeView)
    ensures
        ({
            let f = knowledge::found(g, r);
            let many = f.uids.len() > 1;
            (exists|i: int| #[trigger] ref_gives(g.nodes, section, own, r, i, e)) == (f.uids.contains(e.dst) && e.dst
                != own && e == model::edge_of(
                section,
                e.dst,
                EdgeKind::Mentions,
                if many {
                    Provenance::Ambiguous
                } else {
                    f.provenance
                },
                if many {
                    knowledge::KNOW_AMBIGUOUS
                } else {
                    f.confidence
                },
            ))
        }),
{
    lemma_found(g, r);
    let nodes = g.nodes;
    let f = knowledge::found(g, r);
    if exists|i: int| #[trigger] ref_gives(nodes, section, own, r, i, e) {
        let i = choose|i: int| #[trigger] ref_gives(nodes, section, own, r, i, e);
        lemma_alone(g, r, i);
        lemma_surety(g, r, i);
        assert(f.uids.contains(e.dst));
    }
    if f.uids.contains(e.dst) {
        let i = choose|i: int| #[trigger] is_named(nodes, r, i) && nodes[i].uid == e.dst;
        lemma_alone(g, r, i);
        lemma_surety(g, r, i);
        if e.dst != own && e == model::edge_of(
            section,
            e.dst,
            EdgeKind::Mentions,
            if f.uids.len() > 1 {
                Provenance::Ambiguous
            } else {
                f.provenance
            },
            if f.uids.len() > 1 {
                knowledge::KNOW_AMBIGUOUS
            } else {
                f.confidence
            },
        ) {
            assert(ref_gives(nodes, section, own, r, i, e));
        }
    }
}

proof fn lemma_alone(g: GraphView, r: DocRef, i: int)
    requires
        is_named(g.nodes, r, i),
    ensures
        knowledge::found(g, r).uids.len() <= 1 <==> forall|j: int| #[trigger] is_named(g.nodes, r, j) ==> j == i,
{
    lemma_found(g, r);
    if forall|j: int| #[trigger] is_named(g.nodes, r, j) ==> j == i {
        assert forall|a: int, b: int| #[trigger] is_named(g.nodes, r, a) && #[trigger] is_named(
            g.nodes,
            r,
            b,
        ) implies a == b by {}
    }
}

proof fn lemma_surety(g: GraphView, r: DocRef, i: int)
    requires
        is_named(g.nodes, r, i),
    ensures
        ({
            let f = knowledge::found(g, r);
            &&& r.kind == DocRefKind::PathRef ==> f.provenance == Provenance::Extracted && f.confidence == 950_000_000
            &&& r.kind != DocRefKind::PathRef ==> f.provenance == Provenance::Inferred && f.confidence == (
            if g.nodes[i].fqn == r.text@ {
                800_000_000u32
            } else {
                700_000_000
            })
        }),
{
    lemma_tier(g, r, i);
    if r.kind != DocRefKind::PathRef && tier_of(g, r) == Tier::Name {
        lemma_named_nodes(g.nodes, Tier::Fqn, r.text@, g.nodes.len());
        let hit = |i: int| by_tier(g.nodes, Tier::Fqn, r.text@, i);
        order::lemma_counted(hit, g.nodes.len());
        assert(!hit(i));
    }
}

/// Whether an edge is the mention that reference `j` of a section gives: no earlier one names the same.
pub open spec fn mention_gives(
    nodes: Seq<NodeView>,
    section: Seq<char>,
    own: Seq<char>,
    refs: Seq<DocRef>,
    j: int,
    e: EdgeView,
) -> bool {
    &&& 0 <= j < refs.len()
    &&& exists|i: int| #[trigger] ref_gives(nodes, section, own, refs[j], i, e)
    &&& forall|k: int, i: int| 0 <= k < j && #[trigger] is_named(nodes, refs[k], i) ==> nodes[i].uid != e.dst
}

/// What a reference counts as.
pub enum RefTally {
    Linked,
    Ambiguous,
    Stale,
}

/// Whether a reference counts: as linked where it names something other than its document, as ambiguous
/// where it names several too, as stale where it names nothing and is no token of a code block.
pub open spec fn ref_counts(nodes: Seq<NodeView>, own: Seq<char>, r: DocRef, tally: RefTally) -> bool {
    match tally {
        RefTally::Linked => names_other(nodes, r, own),
        RefTally::Ambiguous => names_other(nodes, r, own) && names_two(nodes, r),
        RefTally::Stale => names_none(nodes, r) && r.kind != DocRefKind::FenceToken,
    }
}

/// A count.
pub open spec fn ref_tallied(c: MentionCounts, tally: RefTally) -> nat {
    match tally {
        RefTally::Linked => c.linked,
        RefTally::Ambiguous => c.ambiguous,
        RefTally::Stale => c.stale,
    }
}

proof fn lemma_mentions(
    g: GraphView,
    s: KnowledgeState,
    section: Seq<char>,
    own: Seq<char>,
    refs: Seq<DocRef>,
    n: nat,
    tally: RefTally,
)
    requires
        s.graph.nodes == g.nodes,
        s.edged.len() == 0,
        n <= refs.len(),
    ensures
        ({
            let t = knowledge::with_mentions(s, section, own, refs, n);
            &&& growth::adds_upto(
                s.graph,
                t.graph,
                |j: int, e: EdgeView| mention_gives(g.nodes, section, own, refs, j, e),
                n as int,
            )
            &&& forall|d: Seq<char>| #[trigger]
                t.edged.contains(d) == (d != own && exists|k: int|
                    0 <= k < n && names_uid(g.nodes, #[trigger] refs[k], d))
            &&& ref_tallied(t.counts, tally) == ref_tallied(s.counts, tally) + order::counted(
                |j: int| ref_counts(g.nodes, own, refs[j], tally),
                n,
            )
        }),
    decreases n,
{
    let gives = |j: int, e: EdgeView| mention_gives(g.nodes, section, own, refs, j, e);
    if n > 0 {
        let m = (n - 1) as nat;
        let last = n - 1;
        lemma_mentions(g, s, section, own, refs, m, tally);
        let b = knowledge::with_mentions(s, section, own, refs, m);
        let t = knowledge::with_mentions(s, section, own, refs, n);
        lemma_mention(g, b, section, own, refs[last]);
        let p = |e: EdgeView| mention_gives(g.nodes, section, own, refs, last, e);
        assert forall|e: EdgeView| #[trigger] t.graph.edges.contains(e) == (b.graph.edges.contains(e) || p(e)) by {
            assert(b.edged.contains(e.dst) == (e.dst != own && exists|k: int|
                0 <= k < m && names_uid(g.nodes, #[trigger] refs[k], e.dst)));
            if exists|i: int| #[trigger] ref_gives(g.nodes, section, own, refs[last], i, e) {
                if b.edged.contains(e.dst) {
                    let k = choose|k: int| 0 <= k < m && names_uid(g.nodes, #[trigger] refs[k], e.dst);
                    let i = choose|i: int| #[trigger] is_named(g.nodes, refs[k], i) && g.nodes[i].uid == e.dst;
                    assert(!p(e));
                } else {
                    assert forall|k: int, i: int| 0 <= k < last && #[trigger] is_named(g.nodes, refs[k], i) implies g.nodes[i].uid
                        != e.dst by {
                        if g.nodes[i].uid == e.dst {
                            assert(names_uid(g.nodes, refs[k], e.dst));
                        }
                    }
                }
            }
        }
        growth::lemma_adds_next(s.graph, b.graph, t.graph, gives, p, last);
        assert forall|d: Seq<char>| #[trigger] t.edged.contains(d) == (d != own && exists|k: int|
            0 <= k < n && names_uid(g.nodes, #[trigger] refs[k], d)) by {
            assert(b.edged.contains(d) == (d != own && exists|k: int|
                0 <= k < m && names_uid(g.nodes, #[trigger] refs[k], d)));
            if exists|k: int| 0 <= k < n && names_uid(g.nodes, #[trigger] refs[k], d) {
                let k = choose|k: int| 0 <= k < n && names_uid(g.nodes, #[trigger] refs[k], d);
                assert(k < m || k == last);
            }
            if names_uid(g.nodes, refs[last], d) {
                assert(names_uid(g.nodes, refs[last], d));
            }
        }
    } else {
        growth::lemma_adds_none(s.graph, gives);
    }
}

/// Whether an edge is a mention of section `k` of a document.
pub open spec fn section_mentions(nodes: Seq<NodeView>, repo: Seq<char>, doc: DocModel, k: int, e: EdgeView) -> bool {
    let section = doc.sections@[k];
    0 <= k < doc.sections@.len() && exists|j: int| #[trigger]
        mention_gives(
            nodes,
            section_at(repo, doc.path@, section.anchor@),
            doc_at(repo, doc.path@),
            section.refs@,
            j,
            e,
        )
}

/// How many references of the first `n` sections of a document count.
pub open spec fn doc_tally(nodes: Seq<NodeView>, repo: Seq<char>, doc: DocModel, tally: RefTally, n: nat) -> nat
    decreases n,
{
    if n == 0 {
        0
    } else {
        let refs = doc.sections@[n - 1].refs@;
        doc_tally(nodes, repo, doc, tally, (n - 1) as nat) + order::counted(
            |j: int| ref_counts(nodes, doc_at(repo, doc.path@), refs[j], tally),
            refs.len(),
        )
    }
}

proof fn lemma_section_mentions(
    g: GraphView,
    s: (GraphView, MentionCounts),
    repo: Seq<char>,
    doc: DocModel,
    n: nat,
    tally: RefTally,
)
    requires
        s.0.nodes == g.nodes,
        n <= doc.sections@.len(),
    ensures
        ({
            let t = knowledge::with_section_mentions(s, repo, doc, n);
            &&& growth::adds_upto(
                s.0,
                t.0,
                |k: int, e: EdgeView| section_mentions(g.nodes, repo, doc, k, e),
                n as int,
            )
            &&& ref_tallied(t.1, tally) == ref_tallied(s.1, tally) + doc_tally(g.nodes, repo, doc, tally, n)
        }),
    decreases n,
{
    let gives = |k: int, e: EdgeView| section_mentions(g.nodes, repo, doc, k, e);
    if n > 0 {
        let m = (n - 1) as nat;
        let last = n - 1;
        lemma_section_mentions(g, s, repo, doc, m, tally);
        let section = doc.sections@[last];
        lemma_section_at(repo, doc.path@, section.anchor@);
        let b = knowledge::with_section_mentions(s, repo, doc, m);
        let h = knowledge::with_section_mentions(s, repo, doc, n);
        let st = KnowledgeState { graph: b.0, counts: b.1, edged: Seq::empty() };
        let at = section_at(repo, doc.path@, section.anchor@);
        let own = doc_at(repo, doc.path@);
        lemma_mentions(g, st, at, own, section.refs@, section.refs@.len(), tally);
        let js = |j: int, e: EdgeView| mention_gives(g.nodes, at, own, section.refs@, j, e);
        let p = |e: EdgeView| section_mentions(g.nodes, repo, doc, last, e);
        assert forall|e: EdgeView| #[trigger] h.0.edges.contains(e) == (b.0.edges.contains(e) || p(e)) by {
            if p(e) {
                let j = choose|j: int| #[trigger] mention_gives(g.nodes, at, own, section.refs@, j, e);
                assert(js(j, e));
            }
        }
        growth::lemma_adds_next(s.0, b.0, h.0, gives, p, last);
    } else {
        growth::lemma_adds_none(s.0, gives);
    }
}

/// Whether an edge is a mention of a section of a document.
pub open spec fn doc_mentions(nodes: Seq<NodeView>, repo: Seq<char>, doc: DocModel, e: EdgeView) -> bool {
    exists|k: int| #[trigger] section_mentions(nodes, repo, doc, k, e)
}

/// How many references of the first `n` documents count.
pub open spec fn docs_tally(nodes: Seq<NodeView>, repo: Seq<char>, docs: Seq<DocModel>, tally: RefTally, n: nat) -> nat
    decreases n,
{
    if n == 0 {
        0
    } else {
        docs_tally(nodes, repo, docs, tally, (n - 1) as nat) + doc_tally(
            nodes,
            repo,
            docs[n - 1],
            tally,
            docs[n - 1].sections@.len(),
        )
    }
}

proof fn lemma_doc_mentions(
    g: GraphView,
    s: (GraphView, MentionCounts),
    repo: Seq<char>,
    docs: Seq<DocModel>,
    n: nat,
    tally: RefTally,
)
    requires
        s.0.nodes == g.nodes,
        n <= docs.len(),
    ensures
        ({
            let t = knowledge::with_doc_mentions(s, repo, docs, n);
            &&& growth::adds_upto(s.0, t.0, |d: int, e: EdgeView| doc_mentions(g.nodes, repo, docs[d], e), n as int)
            &&& ref_tallied(t.1, tally) == ref_tallied(s.1, tally) + docs_tally(g.nodes, repo, docs, tally, n)
        }),
    decreases n,
{
    let gives = |d: int, e: EdgeView| doc_mentions(g.nodes, repo, docs[d], e);
    if n > 0 {
        let m = (n - 1) as nat;
        let last = n - 1;
        lemma_doc_mentions(g, s, repo, docs, m, tally);
        let doc = docs[last];
        let b = knowledge::with_doc_mentions(s, repo, docs, m);
        let h = knowledge::with_doc_mentions(s, repo, docs, n);
        lemma_section_mentions(g, b, repo, doc, doc.sections@.len(), tally);
        let ks = |k: int, e: EdgeView| section_mentions(g.nodes, repo, doc, k, e);
        let p = |e: EdgeView| doc_mentions(g.nodes, repo, doc, e);
        assert forall|e: EdgeView| #[trigger] h.0.edges.contains(e) == (b.0.edges.contains(e) || p(e)) by {
            if p(e) {
                let k = choose|k: int| #[trigger] section_mentions(g.nodes, repo, doc, k, e);
                assert(ks(k, e));
            }
        }
        growth::lemma_adds_next(s.0, b.0, h.0, gives, p, last);
    } else {
        growth::lemma_adds_none(s.0, gives);
    }
}

/// The knowledge plane: every document and every section is a node, and nothing else is added. An edge is
/// one of it exactly if the graph had it, or it contains a section in its document, or it is the first
/// mention that the references of a section make of a node. Mentions see all documents and sections.
pub proof fn law_knowledge_edges(g: GraphView, repo: Seq<char>, docs: Seq<DocModel>)
    ensures
        ({
            let h = knowledge::knowledge_plane(g, repo, docs).0;
            &&& forall|e: EdgeView| #[trigger]
                h.edges.contains(e) <==> {
                    ||| g.edges.contains(e)
                    ||| exists|d: int| 0 <= d < docs.len() && doc_contains(repo, #[trigger] docs[d], e)
                    ||| exists|d: int| 0 <= d < docs.len() && doc_mentions(h.nodes, repo, #[trigger] docs[d], e)
                }
            &&& forall|d: int, x: NodeView|
                0 <= d < docs.len() && #[trigger] doc_node(repo, docs[d], x) ==> h.has(x.uid)
            &&& forall|x: NodeView| #[trigger]
                h.nodes.contains(x) ==> g.nodes.contains(x) || exists|d: int|
                    0 <= d < docs.len() && doc_node(repo, #[trigger] docs[d], x)
        }),
{
    let h = knowledge::knowledge_plane(g, repo, docs).0;
    let b = knowledge::with_documents(g, repo, docs, docs.len());
    lemma_documents(g, repo, docs, docs.len());
    lemma_doc_mentions(b, (b, MentionCounts::zero()), repo, docs, docs.len(), RefTally::Linked);
    let q = |e: EdgeView| exists|d: int| 0 <= d < docs.len() && doc_contains(repo, #[trigger] docs[d], e);
    let r = |x: NodeView| exists|d: int| 0 <= d < docs.len() && doc_node(repo, #[trigger] docs[d], x);
    let gives = |d: int, e: EdgeView| doc_mentions(b.nodes, repo, docs[d], e);
    assert forall|e: EdgeView| #[trigger] h.edges.contains(e) <==> {
        ||| g.edges.contains(e)
        ||| exists|d: int| 0 <= d < docs.len() && doc_contains(repo, #[trigger] docs[d], e)
        ||| exists|d: int| 0 <= d < docs.len() && doc_mentions(h.nodes, repo, #[trigger] docs[d], e)
    } by {
        assert(h.edges.contains(e) == (b.edges.contains(e) || growth::given(gives, docs.len() as int, e)));
        assert(b.edges.contains(e) == (g.edges.contains(e) || q(e)));
        if exists|d: int| 0 <= d < docs.len() && doc_mentions(h.nodes, repo, #[trigger] docs[d], e) {
            let d = choose|d: int| 0 <= d < docs.len() && doc_mentions(h.nodes, repo, #[trigger] docs[d], e);
            assert(gives(d, e));
        }
    }
    let plain = GraphView { nodes: b.nodes, edges: g.edges };
    assert(forall|u: Seq<char>| #[trigger] h.has(u) == plain.has(u));
    assert forall|d: int, x: NodeView| 0 <= d < docs.len() && #[trigger] doc_node(repo, docs[d], x) implies h.has(
        x.uid,
    ) by {
        assert(r(x));
    }
    assert forall|x: NodeView| #[trigger] h.nodes.contains(x) implies g.nodes.contains(x) || exists|d: int|
        0 <= d < docs.len() && doc_node(repo, #[trigger] docs[d], x) by {
        assert(plain.nodes.contains(x));
        if !g.nodes.contains(x) {
            assert(r(x));
        }
    }
}

/// What is reported of the references is what they name.
pub proof fn law_knowledge_counts(g: GraphView, repo: Seq<char>, docs: Seq<DocModel>, tally: RefTally)
    ensures
        ref_tallied(knowledge::knowledge_plane(g, repo, docs).1, tally) == docs_tally(
            knowledge::knowledge_plane(g, repo, docs).0.nodes,
            repo,
            docs,
            tally,
            docs.len(),
        ),
{
    let b = knowledge::with_documents(g, repo, docs, docs.len());
    lemma_doc_mentions(b, (b, MentionCounts::zero()), repo, docs, docs.len(), tally);
}
proof fn lemma_section_prefix(a: Seq<DocModel>, b: Seq<DocModel>, n: nat)
    requires
        n <= a.len(),
        n <= b.len(),
        forall|i: int| 0 <= i < n ==> a[i] == b[i],
    ensures
        knowledge::section_count(a, n) == knowledge::section_count(b, n),
    decreases n,
{
    if n > 0 {
        lemma_section_prefix(a, b, (n - 1) as nat);
    }
}

/// A document more adds its sections to their number.
pub proof fn law_section_count(docs: Seq<DocModel>, doc: DocModel)
    ensures
        knowledge::section_count(docs.push(doc), docs.len() + 1) == knowledge::section_count(docs, docs.len())
            + doc.sections@.len(),
        knowledge::section_count(docs, 0) == 0,
{
    lemma_section_prefix(docs.push(doc), docs, docs.len());
}

} // verus!
