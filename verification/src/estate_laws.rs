//! What the graph of an estate says, told by the graphs and the operations of its repositories.
use vstd::prelude::*;

use crate::contract;
use crate::contract::{ConsumerLink, ContractFormat, FileSignals, LinkState, OperationDef};
use crate::contract_laws;
use crate::estate;
use crate::estate::{RepoLoad, RepoOutcome};
use crate::estate_link;
use crate::estate_link::{CanonicalView, LinkCounts, MergeState};
use crate::growth;
use crate::manifest;
use crate::manifest::{ApiDecl, RepoEntry};
use crate::model;
use crate::model::{EdgeKind, EdgeView, GraphView, NodeKind, NodeView, Provenance, Span};
use crate::order;

verus! {

// ----------------------------------------------------------------------------------------------
// Operations
// ----------------------------------------------------------------------------------------------

/// Whether an API is the one that a specification belongs to: the first that declares it, or the
/// repository where none does.
pub open spec fn is_api_of(repo: Seq<char>, apis: Seq<ApiDecl>, spec: Seq<char>, id: Seq<char>) -> bool {
    ||| exists|i: int|
        0 <= i < apis.len() && (#[trigger] apis[i]).spec@ == spec && apis[i].id@ == id && forall|k: int|
            0 <= k < i ==> (#[trigger] apis[k]).spec@ != spec
    ||| id == repo && forall|i: int| 0 <= i < apis.len() ==> (#[trigger] apis[i]).spec@ != spec
}

proof fn lemma_api_from(apis: Seq<ApiDecl>, spec: Seq<char>, from: int)
    requires
        0 <= from,
        forall|k: int| 0 <= k < from && k < apis.len() ==> (#[trigger] apis[k]).spec@ != spec,
    ensures
        match manifest::api_from(apis, spec, from) {
            Some(id) => exists|i: int|
                0 <= i < apis.len() && (#[trigger] apis[i]).spec@ == spec && apis[i].id@ == id && forall|k: int|
                    0 <= k < i ==> (#[trigger] apis[k]).spec@ != spec,
            None => forall|i: int| 0 <= i < apis.len() ==> (#[trigger] apis[i]).spec@ != spec,
        },
    decreases apis.len() - from,
{
    if from < apis.len() {
        if apis[from].spec@ != spec {
            lemma_api_from(apis, spec, from + 1);
        }
    }
}

/// The API of a specification is the first that declares it, or the repository.
pub proof fn law_api_of(repo: Seq<char>, apis: Seq<ApiDecl>, spec: Seq<char>, id: Seq<char>)
    ensures
        (manifest::api_of(repo, apis, spec) == id) == is_api_of(repo, apis, spec, id),
{
    lemma_api_from(apis, spec, 0);
    if is_api_of(repo, apis, spec, id) {
        if let Some(w) = manifest::api_from(apis, spec, 0) {
            let i = choose|i: int|
                0 <= i < apis.len() && (#[trigger] apis[i]).spec@ == spec && apis[i].id@ == w && forall|k: int|
                    0 <= k < i ==> (#[trigger] apis[k]).spec@ != spec;
            let j = choose|j: int|
                0 <= j < apis.len() && (#[trigger] apis[j]).spec@ == spec && apis[j].id@ == id && forall|k: int|
                    0 <= k < j ==> (#[trigger] apis[k]).spec@ != spec;
            assert(i == j) by {
                if i < j {
                    assert(apis[i].spec@ != spec);
                }
                if j < i {
                    assert(apis[j].spec@ != spec);
                }
            }
        }
    }
}

/// The identifier of an operation across an estate.
pub open spec fn estate_uid(estate: Seq<char>, api: Seq<char>, op: OperationDef) -> Seq<char> {
    model::uid_text(
        "contract"@,
        estate,
        api + seq!['/'] + (match op.format {
            ContractFormat::OpenApi => "openapi"@,
            ContractFormat::Graphql => "graphql"@,
            ContractFormat::Grpc => "grpc"@,
        }),
        op.key@,
        ""@,
    )
}

proof fn lemma_estate_uid(estate: Seq<char>, api: Seq<char>, op: OperationDef)
    ensures
        contract::canonical_uid(estate, api, op.format, op.key@) == estate_uid(estate, api, op),
{
    reveal_strlit("/");
    assert("/"@ =~= seq!['/']);
}

/// Whether operation `k` of repository `r` is there.
pub open spec fn has_operation(loads: Seq<RepoLoad>, r: int, k: int) -> bool {
    0 <= r < loads.len() && (loads[r] matches RepoLoad::Loaded { operations, .. } && 0 <= k < operations@.len())
}

/// Operation `k` of repository `r`.
pub open spec fn operation_at(loads: Seq<RepoLoad>, r: int, k: int) -> OperationDef {
    loads[r]->operations@[k]
}

/// The API of operation `k` of repository `r`.
pub open spec fn api_at(repos: Seq<RepoEntry>, loads: Seq<RepoLoad>, r: int, k: int) -> Seq<char> {
    manifest::api_of(repos[r].name@, repos[r].apis@, operation_at(loads, r, k).spec_path@)
}

/// Whether a move leads from operation `k` of repository `r` to its identifier across the estate.
pub open spec fn moves_operation(
    estate: Seq<char>,
    repos: Seq<RepoEntry>,
    loads: Seq<RepoLoad>,
    r: int,
    k: int,
    m: (Seq<char>, Seq<char>),
) -> bool {
    &&& has_operation(loads, r, k)
    &&& m.0 == model::uid_text(
        "contract"@,
        repos[r].name@,
        operation_at(loads, r, k).spec_path@,
        operation_at(loads, r, k).key@,
        ""@,
    )
    &&& m.1 == estate_uid(estate, api_at(repos, loads, r, k), operation_at(loads, r, k))
}

/// Whether an entry is an operation of one of the first `n` repositories, with the API of its
/// specification.
pub open spec fn lists_entry(
    repos: Seq<RepoEntry>,
    loads: Seq<RepoLoad>,
    entry: (Seq<char>, OperationDef),
    n: int,
) -> bool {
    exists|r: int, k: int| #[trigger]
        has_operation(loads, r, k) && r < n && entry.0 == api_at(repos, loads, r, k) && entry.1 == operation_at(
            loads,
            r,
            k,
        )
}

/// Whether a move leads from an operation of one of the first `n` repositories.
pub open spec fn lists_move(
    estate: Seq<char>,
    repos: Seq<RepoEntry>,
    loads: Seq<RepoLoad>,
    x: (Seq<char>, Seq<char>),
    n: int,
) -> bool {
    exists|r: int, k: int| #[trigger] moves_operation(estate, repos, loads, r, k, x) && r < n
}

proof fn lemma_repo_entries(
    estate: Seq<char>,
    repos: Seq<RepoEntry>,
    loads: Seq<RepoLoad>,
    s: CanonicalView,
    r: int,
    n: nat,
    i: int,
)
    requires
        0 <= r < loads.len(),
        loads[r] is Loaded,
        n <= loads[r]->operations@.len(),
        forall|i: int| 0 <= i < s.ops.len() ==> lists_entry(repos, loads, #[trigger] s.ops[i], r),
        0 <= i < estate_link::with_repo_ops(s, estate, repos[r], loads[r]->operations@, n).ops.len(),
    ensures
        lists_entry(
            repos,
            loads,
            estate_link::with_repo_ops(s, estate, repos[r], loads[r]->operations@, n).ops[i],
            r + 1,
        ),
    decreases n,
{
    let h = estate_link::with_repo_ops(s, estate, repos[r], loads[r]->operations@, n);
    if n > 0 {
        let m = (n - 1) as nat;
        let b = estate_link::with_repo_ops(s, estate, repos[r], loads[r]->operations@, m);
        if i < b.ops.len() {
            lemma_repo_entries(estate, repos, loads, s, r, m, i);
            assert(h.ops[i] == b.ops[i]);
        } else {
            assert(has_operation(loads, r, n - 1));
            assert(h.ops[i].0 == api_at(repos, loads, r, n - 1));
        }
    } else {
        assert(lists_entry(repos, loads, s.ops[i], r));
        let (q, k) = choose|q: int, k: int| #[trigger]
            has_operation(loads, q, k) && q < r && s.ops[i].0 == api_at(repos, loads, q, k) && s.ops[i].1
                == operation_at(loads, q, k);
        assert(has_operation(loads, q, k));
    }
}

proof fn lemma_repo_moves(
    estate: Seq<char>,
    repos: Seq<RepoEntry>,
    loads: Seq<RepoLoad>,
    s: CanonicalView,
    r: int,
    n: nat,
    x: (Seq<char>, Seq<char>),
)
    requires
        0 <= r < loads.len(),
        loads[r] is Loaded,
        n <= loads[r]->operations@.len(),
    ensures
        estate_link::with_repo_ops(s, estate, repos[r], loads[r]->operations@, n).moves.contains(x) == (
        s.moves.contains(x) || exists|k: int| k < n && #[trigger] moves_operation(estate, repos, loads, r, k, x)),
    decreases n,
{
    if n > 0 {
        let m = (n - 1) as nat;
        let last = n - 1;
        lemma_repo_moves(estate, repos, loads, s, r, m, x);
        let b = estate_link::with_repo_ops(s, estate, repos[r], loads[r]->operations@, m);
        let op = operation_at(loads, r, last);
        let api = api_at(repos, loads, r, last);
        lemma_estate_uid(estate, api, op);
        let y = (contract::local_uid(repos[r].name@, op), contract::canonical_uid(estate, api, op.format, op.key@));
        model::lemma_pushed(b.moves, y, x);
        assert(has_operation(loads, r, last));
        assert(moves_operation(estate, repos, loads, r, last, x) == (x == y));
        if exists|k: int| k < n && #[trigger] moves_operation(estate, repos, loads, r, k, x) {
            let k = choose|k: int| k < n && #[trigger] moves_operation(estate, repos, loads, r, k, x);
            assert(k < m || k == last);
        }
    } else {
        assert forall|k: int| k < n implies !(#[trigger] moves_operation(estate, repos, loads, r, k, x)) by {}
    }
}

proof fn lemma_entries(estate: Seq<char>, repos: Seq<RepoEntry>, loads: Seq<RepoLoad>, n: nat)
    requires
        n <= loads.len(),
    ensures
        forall|i: int|
            0 <= i < estate_link::canonical_upto(estate, repos, loads, n).ops.len() ==> lists_entry(
                repos,
                loads,
                #[trigger] estate_link::canonical_upto(estate, repos, loads, n).ops[i],
                n as int,
            ),
    decreases n,
{
    let all = estate_link::canonical_upto(estate, repos, loads, n);
    if n > 0 {
        let m = (n - 1) as nat;
        let r = n - 1;
        lemma_entries(estate, repos, loads, m);
        let b = estate_link::canonical_upto(estate, repos, loads, m);
        assert forall|i: int| 0 <= i < all.ops.len() implies lists_entry(
            repos,
            loads,
            #[trigger] all.ops[i],
            n as int,
        ) by {
            if loads[r] is Loaded {
                lemma_repo_entries(estate, repos, loads, b, r, loads[r]->operations@.len(), i);
            } else {
                assert(lists_entry(repos, loads, b.ops[i], m as int));
                let (q, k) = choose|q: int, k: int| #[trigger]
                    has_operation(loads, q, k) && q < m && b.ops[i].0 == api_at(repos, loads, q, k) && b.ops[i].1
                        == operation_at(loads, q, k);
                assert(has_operation(loads, q, k));
            }
        }
    }
}

proof fn lemma_moves(
    estate: Seq<char>,
    repos: Seq<RepoEntry>,
    loads: Seq<RepoLoad>,
    n: nat,
    x: (Seq<char>, Seq<char>),
)
    requires
        n <= loads.len(),
    ensures
        estate_link::canonical_upto(estate, repos, loads, n).moves.contains(x) == lists_move(
            estate,
            repos,
            loads,
            x,
            n as int,
        ),
    decreases n,
{
    if n > 0 {
        let m = (n - 1) as nat;
        let last = n - 1;
        lemma_moves(estate, repos, loads, m, x);
        let b = estate_link::canonical_upto(estate, repos, loads, m);
        if loads[last] is Loaded {
            let size = loads[last]->operations@.len();
            lemma_repo_moves(estate, repos, loads, b, last, size, x);
            if lists_move(estate, repos, loads, x, n as int) {
                let (r, k) = choose|r: int, k: int| #[trigger] moves_operation(estate, repos, loads, r, k, x) && r < n;
                if r == last {
                    assert(k < size);
                } else {
                    assert(lists_move(estate, repos, loads, x, m as int));
                }
            }
            if exists|k: int| k < size && #[trigger] moves_operation(estate, repos, loads, last, k, x) {
                let k = choose|k: int| k < size && #[trigger] moves_operation(estate, repos, loads, last, k, x);
                assert(lists_move(estate, repos, loads, x, n as int));
            }
        } else {
            if lists_move(estate, repos, loads, x, n as int) {
                let (r, k) = choose|r: int, k: int| #[trigger] moves_operation(estate, repos, loads, r, k, x) && r < n;
                assert(r != last);
                assert(lists_move(estate, repos, loads, x, m as int));
            }
        }
        if lists_move(estate, repos, loads, x, m as int) {
            let (r, k) = choose|r: int, k: int| #[trigger] moves_operation(estate, repos, loads, r, k, x) && r < m;
            assert(lists_move(estate, repos, loads, x, n as int));
        }
    }
}

/// The operations of an estate are those of its repositories and no others, each with the API of its
/// specification; and an identifier is moved exactly where it is that of an operation of a repository,
/// to that of the operation across the estate.
pub proof fn law_estate_operations(estate: Seq<char>, repos: Seq<RepoEntry>, loads: Seq<RepoLoad>)
    ensures
        forall|i: int|
            0 <= i < estate_link::canonical_upto(estate, repos, loads, loads.len()).ops.len() ==> lists_entry(
                repos,
                loads,
                #[trigger] estate_link::canonical_upto(estate, repos, loads, loads.len()).ops[i],
                loads.len() as int,
            ),
        forall|x: (Seq<char>, Seq<char>)| #[trigger]
            estate_link::canonical_upto(estate, repos, loads, loads.len()).moves.contains(x) <==> lists_move(
                estate,
                repos,
                loads,
                x,
                loads.len() as int,
            ),
{
    lemma_entries(estate, repos, loads, loads.len());
    assert forall|x: (Seq<char>, Seq<char>)| #[trigger]
        estate_link::canonical_upto(estate, repos, loads, loads.len()).moves.contains(x) <==> lists_move(
            estate,
            repos,
            loads,
            x,
            loads.len() as int,
        ) by {
        lemma_moves(estate, repos, loads, loads.len(), x);
    }
}

/// Where an identifier is moved to: where the last of its moves leads, or nowhere where it has none.
pub proof fn law_moved(moves: Seq<(Seq<char>, Seq<char>)>, uid: Seq<char>)
    ensures
        ({
            let to = estate_link::moved(moves, uid, moves.len());
            ||| to == uid && forall|i: int| 0 <= i < moves.len() ==> (#[trigger] moves[i]).0 != uid
            ||| exists|i: int|
                0 <= i < moves.len() && (#[trigger] moves[i]).0 == uid && to == moves[i].1 && forall|k: int|
                    i < k < moves.len() ==> (#[trigger] moves[k]).0 != uid
        }),
{
    lemma_moved(moves, uid, moves.len());
}

proof fn lemma_moved(moves: Seq<(Seq<char>, Seq<char>)>, uid: Seq<char>, n: nat)
    requires
        n <= moves.len(),
    ensures
        ({
            let to = estate_link::moved(moves, uid, n);
            ||| to == uid && forall|i: int| 0 <= i < n ==> (#[trigger] moves[i]).0 != uid
            ||| exists|i: int|
                0 <= i < n && (#[trigger] moves[i]).0 == uid && to == moves[i].1 && forall|k: int|
                    i < k < n ==> (#[trigger] moves[k]).0 != uid
        }),
    decreases n,
{
    if n > 0 {
        let last = n - 1;
        if moves[last].0 != uid {
            lemma_moved(moves, uid, (n - 1) as nat);
            let to = estate_link::moved(moves, uid, n);
            if exists|i: int|
                0 <= i < n - 1 && (#[trigger] moves[i]).0 == uid && to == moves[i].1 && forall|k: int|
                    i < k < n - 1 ==> (#[trigger] moves[k]).0 != uid {
                let i = choose|i: int|
                    0 <= i < n - 1 && (#[trigger] moves[i]).0 == uid && to == moves[i].1 && forall|k: int|
                        i < k < n - 1 ==> (#[trigger] moves[k]).0 != uid;
                assert(moves[i].0 == uid);
            }
        } else {
            assert(moves[last].0 == uid);
        }
    }
}

// ----------------------------------------------------------------------------------------------
// Nodes
// ----------------------------------------------------------------------------------------------

/// Whether a node is that of an operation of the estate.
pub open spec fn is_estate_op(
    estate: Seq<char>,
    ops: Seq<(Seq<char>, OperationDef)>,
    i: int,
    x: NodeView,
) -> bool {
    let op = ops[i].1;
    &&& 0 <= i < ops.len()
    &&& x.uid == estate_uid(estate, ops[i].0, op)
    &&& x.kind == if op.format == ContractFormat::Graphql {
        NodeKind::GraphqlField
    } else {
        NodeKind::ApiOperation
    }
    &&& x.name == match op.operation_id {
        Some(id) => id@,
        None => op.method@ + seq![' '] + op.path@,
    }
    &&& x.fqn == op.key@ && x.path == op.path@
    &&& x.span == (Span { start_line: 0, start_col: 0, end_line: 0, end_col: 0 })
    &&& x.provenance == Provenance::Extracted && x.confidence == 1_000_000_000
}

proof fn lemma_canonical_nodes(g: GraphView, estate: Seq<char>, ops: Seq<(Seq<char>, OperationDef)>, n: nat)
    requires
        n <= ops.len(),
    ensures
        growth::nodes_from(
            g,
            estate_link::with_canonical_nodes(g, estate, ops, n),
            |x: NodeView| exists|i: int| i < n && #[trigger] is_estate_op(estate, ops, i, x),
        ),
    decreases n,
{
    let r = |x: NodeView| exists|i: int| i < n && #[trigger] is_estate_op(estate, ops, i, x);
    if n > 0 {
        let m = (n - 1) as nat;
        let last = n - 1;
        lemma_canonical_nodes(g, estate, ops, m);
        let op = ops[last].1;
        lemma_estate_uid(estate, ops[last].0, op);
        reveal_strlit(" ");
        assert(" "@ =~= seq![' ']);
        let b = estate_link::with_canonical_nodes(g, estate, ops, m);
        let h = estate_link::with_canonical_nodes(g, estate, ops, n);
        let node = contract::operation_node(contract::canonical_uid(estate, ops[last].0, op.format, op.key@), op);
        let p = |x: NodeView| exists|i: int| i < m && #[trigger] is_estate_op(estate, ops, i, x);
        let q = |x: NodeView| x == node;
        assert forall|x: NodeView| #[trigger] is_estate_op(estate, ops, last, x) == q(x) by {}
        growth::lemma_nodes_one(b, node, q);
        assert forall|x: NodeView| #[trigger] r(x) == (p(x) || q(x)) by {
            assert(is_estate_op(estate, ops, last, x) == q(x));
            if r(x) {
                let i = choose|i: int| i < n && #[trigger] is_estate_op(estate, ops, i, x);
                assert(i < m || i == last);
            }
        }
        growth::lemma_nodes_more(g, b, h, p, q, r);
    } else {
        growth::lemma_nodes_none(g, r);
    }
}

/// Whether a node is one that stands for no operation.
pub open spec fn is_plain(x: NodeView) -> bool {
    x.kind != NodeKind::ApiOperation && x.kind != NodeKind::GraphqlField
}

proof fn lemma_plain_nodes(g: GraphView, nodes: Seq<NodeView>, n: nat)
    requires
        n <= nodes.len(),
    ensures
        growth::nodes_from(
            g,
            estate_link::with_plain_nodes(g, nodes, n),
            |x: NodeView| is_plain(x) && nodes.take(n as int).contains(x),
        ),
    decreases n,
{
    let r = |x: NodeView| is_plain(x) && nodes.take(n as int).contains(x);
    if n > 0 {
        let m = (n - 1) as nat;
        let last = n - 1;
        lemma_plain_nodes(g, nodes, m);
        let b = estate_link::with_plain_nodes(g, nodes, m);
        let h = estate_link::with_plain_nodes(g, nodes, n);
        let p = |x: NodeView| is_plain(x) && nodes.take(m as int).contains(x);
        let q = |x: NodeView| x == nodes[last] && is_plain(x);
        if is_plain(nodes[last]) {
            growth::lemma_nodes_one(b, nodes[last], q);
        } else {
            growth::lemma_nodes_none(b, q);
        }
        assert(nodes.take(n as int) =~= nodes.take(m as int).push(nodes[last]));
        assert forall|x: NodeView| #[trigger] r(x) == (p(x) || q(x)) by {
            model::lemma_pushed(nodes.take(m as int), nodes[last], x);
        }
        growth::lemma_nodes_more(g, b, h, p, q, r);
    } else {
        assert(nodes.take(0) =~= Seq::empty());
        growth::lemma_nodes_none(g, r);
    }
}

// ----------------------------------------------------------------------------------------------
// Edges
// ----------------------------------------------------------------------------------------------

proof fn lemma_edges_from(g: GraphView, uid: Seq<char>, m: nat, e: EdgeView)
    requires
        m <= g.edges.len(),
    ensures
        model::edges_from(g, uid, m).contains(e) == (g.edges.take(m as int).contains(e) && e.src == uid && g.has(e.dst)),
    decreases m,
{
    if m > 0 {
        let last = m - 1;
        lemma_edges_from(g, uid, (m - 1) as nat, e);
        assert(g.edges.take(m as int) =~= g.edges.take(last).push(g.edges[last]));
        model::lemma_pushed(g.edges.take(last), g.edges[last], e);
        model::lemma_pushed(model::edges_from(g, uid, (m - 1) as nat), g.edges[last], e);
    } else {
        assert(g.edges.take(0) =~= Seq::empty());
    }
}

proof fn lemma_outgoing(g: GraphView, n: nat, e: EdgeView)
    requires
        n <= g.nodes.len(),
    ensures
        model::outgoing_upto(g, n).contains(e) == (g.edges.contains(e) && g.has(e.dst) && exists|i: int|
            0 <= i < n && (#[trigger] g.nodes[i]).uid == e.src),
    decreases n,
{
    if n > 0 {
        let last = n - 1;
        lemma_outgoing(g, (n - 1) as nat, e);
        let more = model::edges_from(g, g.nodes[last].uid, g.edges.len());
        lemma_edges_from(g, g.nodes[last].uid, g.edges.len(), e);
        assert(g.edges.take(g.edges.len() as int) =~= g.edges);
        model::lemma_joined(model::outgoing_upto(g, (n - 1) as nat), more, e);
    }
}

/// The edges between nodes of a graph are those whose two ends are nodes of it.
pub proof fn law_edges_between_nodes(g: GraphView, e: EdgeView)
    ensures
        model::outgoing(g).contains(e) <==> g.edges.contains(e) && g.has(e.src) && g.has(e.dst),
{
    lemma_outgoing(g, g.nodes.len(), e);
}

/// Whether an edge of a repository becomes the edge `x`: its ends are moved, all else stays.
pub open spec fn becomes(moves: Seq<(Seq<char>, Seq<char>)>, e: EdgeView, x: EdgeView) -> bool {
    x == (EdgeView {
        src: estate_link::moved(moves, e.src, moves.len()),
        dst: estate_link::moved(moves, e.dst, moves.len()),
        kind: e.kind,
        provenance: e.provenance,
        confidence: e.confidence,
    })
}

/// Whether a graph has an edge with the moved ends and the kind of an edge.
pub open spec fn shows(g: GraphView, moves: Seq<(Seq<char>, Seq<char>)>, e: EdgeView) -> bool {
    exists|x: EdgeView| #[trigger]
        g.edges.contains(x) && x.src == estate_link::moved(moves, e.src, moves.len()) && x.dst == estate_link::moved(
            moves,
            e.dst,
            moves.len(),
        ) && x.kind == e.kind
}

spec fn seen_shown(s: MergeState) -> bool {
    forall|m: (Seq<char>, Seq<char>, EdgeKind)| #[trigger]
        s.seen.contains(m) ==> exists|x: EdgeView| #[trigger]
            s.graph.edges.contains(x) && x.src == m.0 && x.dst == m.1 && x.kind == m.2
}

proof fn lemma_moved_edges(s: MergeState, edges: Seq<EdgeView>, moves: Seq<(Seq<char>, Seq<char>)>, n: nat)
    requires
        n <= edges.len(),
        seen_shown(s),
    ensures
        ({
            let t = estate_link::with_moved_edges(s, edges, moves, n);
            &&& t.graph.nodes == s.graph.nodes
            &&& seen_shown(t)
            &&& forall|x: EdgeView| #[trigger] s.graph.edges.contains(x) ==> t.graph.edges.contains(x)
            &&& forall|k: int| 0 <= k < n ==> shows(t.graph, moves, #[trigger] edges[k])
            &&& forall|x: EdgeView| #[trigger]
                t.graph.edges.contains(x) ==> s.graph.edges.contains(x) || exists|k: int|
                    0 <= k < n && becomes(moves, #[trigger] edges[k], x)
        }),
    decreases n,
{
    if n > 0 {
        let m = (n - 1) as nat;
        let last = n - 1;
        lemma_moved_edges(s, edges, moves, m);
        let b = estate_link::with_moved_edges(s, edges, moves, m);
        let t = estate_link::with_moved_edges(s, edges, moves, n);
        let e = edges[last];
        let src = estate_link::moved(moves, e.src, moves.len());
        let dst = estate_link::moved(moves, e.dst, moves.len());
        let mark = (src, dst, e.kind);
        let y = EdgeView { src, dst, kind: e.kind, provenance: e.provenance, confidence: e.confidence };
        if b.seen.contains(mark) {
            let x = choose|x: EdgeView| #[trigger]
                b.graph.edges.contains(x) && x.src == mark.0 && x.dst == mark.1 && x.kind == mark.2;
            assert(shows(t.graph, moves, edges[last]));
        } else {
            assert forall|x: EdgeView| #[trigger] t.graph.edges.contains(x) == (b.graph.edges.contains(x) || x == y) by {
                model::lemma_pushed(b.graph.edges, y, x);
            }
            assert(t.graph.edges.contains(y));
            assert(shows(t.graph, moves, edges[last]));
            assert(becomes(moves, edges[last], y));
            assert forall|q: (Seq<char>, Seq<char>, EdgeKind)| #[trigger] t.seen.contains(q) implies exists|x: EdgeView| #[trigger]
                t.graph.edges.contains(x) && x.src == q.0 && x.dst == q.1 && x.kind == q.2 by {
                model::lemma_pushed(b.seen, mark, q);
                if b.seen.contains(q) {
                    let x = choose|x: EdgeView| #[trigger]
                        b.graph.edges.contains(x) && x.src == q.0 && x.dst == q.1 && x.kind == q.2;
                    assert(t.graph.edges.contains(x));
                } else {
                    assert(t.graph.edges.contains(y));
                }
            }
            assert forall|k: int| 0 <= k < n implies shows(t.graph, moves, #[trigger] edges[k]) by {
                if k < m {
                    assert(shows(b.graph, moves, edges[k]));
                    let x = choose|x: EdgeView| #[trigger]
                        b.graph.edges.contains(x) && x.src == estate_link::moved(moves, edges[k].src, moves.len())
                            && x.dst == estate_link::moved(moves, edges[k].dst, moves.len()) && x.kind == edges[k].kind;
                    assert(t.graph.edges.contains(x));
                }
            }
            assert forall|x: EdgeView| #[trigger] t.graph.edges.contains(x) implies s.graph.edges.contains(x)
                || exists|k: int| 0 <= k < n && becomes(moves, #[trigger] edges[k], x) by {
                if b.graph.edges.contains(x) && !s.graph.edges.contains(x) {
                    let k = choose|k: int| 0 <= k < m && becomes(moves, #[trigger] edges[k], x);
                    assert(becomes(moves, edges[k], x));
                }
            }
        }
    }
}

/// The graph of repository `r`, where it loaded.
pub open spec fn graph_at(loads: Seq<RepoLoad>, r: int) -> GraphView {
    loads[r]->graph@
}

/// Whether repository `r` loaded.
pub open spec fn is_loaded(loads: Seq<RepoLoad>, r: int) -> bool {
    0 <= r < loads.len() && loads[r] is Loaded
}

/// Whether an edge between nodes of one of the first `n` repositories becomes the edge `x`.
pub open spec fn comes_from(loads: Seq<RepoLoad>, moves: Seq<(Seq<char>, Seq<char>)>, n: int, x: EdgeView) -> bool {
    exists|r: int, e: EdgeView|
        r < n && is_loaded(loads, r) && #[trigger] graph_at(loads, r).edges.contains(e) && graph_at(loads, r).has(
            e.src,
        ) && graph_at(loads, r).has(e.dst) && becomes(moves, e, x)
}

proof fn lemma_shows_kept(g: GraphView, h: GraphView, moves: Seq<(Seq<char>, Seq<char>)>, e: EdgeView)
    requires
        shows(g, moves, e),
        forall|x: EdgeView| #[trigger] g.edges.contains(x) ==> h.edges.contains(x),
    ensures
        shows(h, moves, e),
{
    let x = choose|x: EdgeView| #[trigger]
        g.edges.contains(x) && x.src == estate_link::moved(moves, e.src, moves.len()) && x.dst == estate_link::moved(
            moves,
            e.dst,
            moves.len(),
        ) && x.kind == e.kind;
    assert(h.edges.contains(x));
}

proof fn lemma_merged_edges(s: MergeState, loads: Seq<RepoLoad>, moves: Seq<(Seq<char>, Seq<char>)>, n: nat)
    requires
        n <= loads.len(),
        seen_shown(s),
    ensures
        ({
            let t = estate_link::merged_upto(s, loads, moves, n);
            &&& seen_shown(t)
            &&& forall|x: EdgeView| #[trigger] s.graph.edges.contains(x) ==> t.graph.edges.contains(x)
            &&& forall|r: int, e: EdgeView|
                r < n && is_loaded(loads, r) && #[trigger] graph_at(loads, r).edges.contains(e) && graph_at(
                    loads,
                    r,
                ).has(e.src) && graph_at(loads, r).has(e.dst) ==> shows(t.graph, moves, e)
            &&& forall|x: EdgeView| #[trigger]
                t.graph.edges.contains(x) ==> s.graph.edges.contains(x) || comes_from(loads, moves, n as int, x)
        }),
    decreases n,
{
    if n > 0 {
        let m = (n - 1) as nat;
        let last = n - 1;
        lemma_merged_edges(s, loads, moves, m);
        let b = estate_link::merged_upto(s, loads, moves, m);
        let t = estate_link::merged_upto(s, loads, moves, n);
        if is_loaded(loads, last) {
            let g = graph_at(loads, last);
            let edges = model::outgoing(g);
            let c = MergeState {
                graph: estate_link::with_plain_nodes(b.graph, g.nodes, g.nodes.len()),
                seen: b.seen,
            };
            lemma_plain_nodes(b.graph, g.nodes, g.nodes.len());
            assert(c.graph.edges == b.graph.edges);
            assert(seen_shown(c));
            lemma_moved_edges(c, edges, moves, edges.len());
            assert forall|x: EdgeView| #[trigger] b.graph.edges.contains(x) implies t.graph.edges.contains(x) by {
                assert(c.graph.edges.contains(x));
            }
            assert forall|r: int, e: EdgeView|
                r < n && is_loaded(loads, r) && #[trigger] graph_at(loads, r).edges.contains(e) && graph_at(
                    loads,
                    r,
                ).has(e.src) && graph_at(loads, r).has(e.dst) implies shows(t.graph, moves, e) by {
                if r < m {
                    lemma_shows_kept(b.graph, t.graph, moves, e);
                } else {
                    law_edges_between_nodes(g, e);
                    let k = choose|k: int| 0 <= k < edges.len() && edges[k] == e;
                    assert(shows(t.graph, moves, edges[k]));
                }
            }
            assert forall|x: EdgeView| #[trigger] t.graph.edges.contains(x) implies s.graph.edges.contains(x)
                || comes_from(loads, moves, n as int, x) by {
                if c.graph.edges.contains(x) {
                    assert(b.graph.edges.contains(x));
                    if !s.graph.edges.contains(x) {
                        lemma_comes_later(loads, moves, m as int, n as int, x);
                    }
                } else {
                    let k = choose|k: int| 0 <= k < edges.len() && becomes(moves, #[trigger] edges[k], x);
                    assert(edges.contains(edges[k]));
                    law_edges_between_nodes(g, edges[k]);
                    assert(graph_at(loads, last).edges.contains(edges[k]));
                }
            }
        } else {
            assert forall|x: EdgeView| #[trigger] t.graph.edges.contains(x) implies s.graph.edges.contains(x)
                || comes_from(loads, moves, n as int, x) by {
                if !s.graph.edges.contains(x) {
                    lemma_comes_later(loads, moves, m as int, n as int, x);
                }
            }
        }
    }
}

proof fn lemma_comes_later(loads: Seq<RepoLoad>, moves: Seq<(Seq<char>, Seq<char>)>, m: int, n: int, x: EdgeView)
    requires
        m <= n,
        comes_from(loads, moves, m, x),
    ensures
        comes_from(loads, moves, n, x),
{
    let (r, e) = choose|r: int, e: EdgeView|
        r < m && is_loaded(loads, r) && #[trigger] graph_at(loads, r).edges.contains(e) && graph_at(loads, r).has(e.src)
            && graph_at(loads, r).has(e.dst) && becomes(moves, e, x);
    assert(graph_at(loads, r).edges.contains(e));
}

/// The graphs of an estate, united: every edge between nodes of a repository is shown, between the moved
/// ends and of its kind, and every edge is that of some repository, with its ends moved.
pub proof fn law_estate_edges(estate: Seq<char>, repos: Seq<RepoEntry>, loads: Seq<RepoLoad>)
    ensures
        ({
            let set = estate_link::canonical_upto(estate, repos, loads, loads.len());
            let g = estate_link::merged(estate, loads, set).graph;
            &&& forall|r: int, e: EdgeView|
                is_loaded(loads, r) && #[trigger] graph_at(loads, r).edges.contains(e) && graph_at(loads, r).has(
                    e.src,
                ) && graph_at(loads, r).has(e.dst) ==> shows(g, set.moves, e)
            &&& forall|x: EdgeView| #[trigger]
                g.edges.contains(x) ==> comes_from(loads, set.moves, loads.len() as int, x)
        }),
{
    let set = estate_link::canonical_upto(estate, repos, loads, loads.len());
    let base = estate_link::canonical_graph(estate, set);
    let s = MergeState { graph: base, seen: Seq::empty() };
    lemma_canonical_nodes(GraphView::empty(), estate, set.ops, set.ops.len());
    assert(base.edges == GraphView::empty().edges);
    assert(seen_shown(s));
    lemma_merged_edges(s, loads, set.moves, loads.len());
}

proof fn lemma_merged_nodes(s: MergeState, loads: Seq<RepoLoad>, moves: Seq<(Seq<char>, Seq<char>)>, n: nat)
    requires
        n <= loads.len(),
    ensures
        ({
            let t = estate_link::merged_upto(s, loads, moves, n);
            growth::nodes_from(
                GraphView { nodes: s.graph.nodes, edges: Seq::empty() },
                GraphView { nodes: t.graph.nodes, edges: Seq::empty() },
                |x: NodeView|
                    is_plain(x) && exists|r: int|
                        r < n && is_loaded(loads, r) && (#[trigger] graph_at(loads, r)).nodes.contains(x),
            )
        }),
    decreases n,
{
    let r3 = |x: NodeView|
        is_plain(x) && exists|r: int|
            r < n && is_loaded(loads, r) && (#[trigger] graph_at(loads, r)).nodes.contains(x);
    let t = estate_link::merged_upto(s, loads, moves, n);
    let g0 = GraphView { nodes: s.graph.nodes, edges: Seq::empty() };
    let gt = GraphView { nodes: t.graph.nodes, edges: Seq::empty() };
    if n > 0 {
        let m = (n - 1) as nat;
        let last = n - 1;
        lemma_merged_nodes(s, loads, moves, m);
        let b = estate_link::merged_upto(s, loads, moves, m);
        let gb = GraphView { nodes: b.graph.nodes, edges: Seq::empty() };
        let p = |x: NodeView|
            is_plain(x) && exists|r: int|
                r < m && is_loaded(loads, r) && (#[trigger] graph_at(loads, r)).nodes.contains(x);
        let q = |x: NodeView| is_plain(x) && is_loaded(loads, last) && graph_at(loads, last).nodes.contains(x);
        if is_loaded(loads, last) {
            let g = graph_at(loads, last);
            lemma_plain_nodes(gb, g.nodes, g.nodes.len());
            let h = estate_link::with_plain_nodes(gb, g.nodes, g.nodes.len());
            let c = estate_link::with_plain_nodes(b.graph, g.nodes, g.nodes.len());
            lemma_plain_alike(gb, b.graph, g.nodes, g.nodes.len());
            let edges = model::outgoing(g);
            lemma_edges_keep_nodes(MergeState { graph: c, seen: b.seen }, edges, moves, edges.len());
            assert(t.graph.nodes == h.nodes);
            assert(h.edges =~= gt.edges);
            assert(h == gt);
            assert(g.nodes.take(g.nodes.len() as int) =~= g.nodes);
            lemma_nodes_same(
                gb,
                gt,
                |x: NodeView| is_plain(x) && g.nodes.take(g.nodes.len() as int).contains(x),
                q,
            );
        } else {
            growth::lemma_nodes_none(gb, q);
        }
        assert forall|x: NodeView| #[trigger] r3(x) == (p(x) || q(x)) by {
            if r3(x) {
                let r = choose|r: int|
                    r < n && is_loaded(loads, r) && (#[trigger] graph_at(loads, r)).nodes.contains(x);
                assert(r < m || r == last);
            }
            if p(x) {
                let r = choose|r: int|
                    r < m && is_loaded(loads, r) && (#[trigger] graph_at(loads, r)).nodes.contains(x);
                assert(graph_at(loads, r).nodes.contains(x));
            }
            if q(x) {
                assert(graph_at(loads, last).nodes.contains(x));
            }
        }
        growth::lemma_nodes_more(g0, gb, gt, p, q, r3);
    } else {
        growth::lemma_nodes_none(g0, r3);
    }
}

proof fn lemma_nodes_same(
    g: GraphView,
    h: GraphView,
    p: spec_fn(NodeView) -> bool,
    q: spec_fn(NodeView) -> bool,
)
    requires
        growth::nodes_from(g, h, p),
        forall|x: NodeView| #[trigger] q(x) == p(x),
    ensures
        growth::nodes_from(g, h, q),
{
    let none = |x: NodeView| false;
    growth::lemma_nodes_none(h, none);
    growth::lemma_nodes_more(g, h, h, p, none, q);
}

proof fn lemma_plain_alike(a: GraphView, b: GraphView, nodes: Seq<NodeView>, n: nat)
    requires
        a.nodes == b.nodes,
    ensures
        estate_link::with_plain_nodes(a, nodes, n).nodes == estate_link::with_plain_nodes(b, nodes, n).nodes,
        estate_link::with_plain_nodes(a, nodes, n).edges == a.edges,
    decreases n,
{
    if n > 0 {
        lemma_plain_alike(a, b, nodes, (n - 1) as nat);
        let x = estate_link::with_plain_nodes(a, nodes, (n - 1) as nat);
        let y = estate_link::with_plain_nodes(b, nodes, (n - 1) as nat);
        assert(x.has(nodes[n - 1].uid) == y.has(nodes[n - 1].uid));
    }
}

proof fn lemma_edges_keep_nodes(s: MergeState, edges: Seq<EdgeView>, moves: Seq<(Seq<char>, Seq<char>)>, n: nat)
    ensures
        estate_link::with_moved_edges(s, edges, moves, n).graph.nodes == s.graph.nodes,
    decreases n,
{
    if n > 0 {
        lemma_edges_keep_nodes(s, edges, moves, (n - 1) as nat);
    }
}

/// The nodes of an estate are its operations and every node of a repository that stands for no operation,
/// and no others.
pub proof fn law_estate_nodes(estate: Seq<char>, repos: Seq<RepoEntry>, loads: Seq<RepoLoad>)
    ensures
        ({
            let set = estate_link::canonical_upto(estate, repos, loads, loads.len());
            let g = estate_link::merged(estate, loads, set).graph;
            &&& forall|i: int, x: NodeView| #[trigger] is_estate_op(estate, set.ops, i, x) ==> g.has(x.uid)
            &&& forall|r: int, x: NodeView|
                is_loaded(loads, r) && #[trigger] graph_at(loads, r).nodes.contains(x) && is_plain(x) ==> g.has(x.uid)
            &&& forall|x: NodeView| #[trigger]
                g.nodes.contains(x) ==> {
                    ||| exists|i: int| #[trigger] is_estate_op(estate, set.ops, i, x)
                    ||| is_plain(x) && exists|r: int|
                        is_loaded(loads, r) && (#[trigger] graph_at(loads, r)).nodes.contains(x)
                }
        }),
{
    let set = estate_link::canonical_upto(estate, repos, loads, loads.len());
    let base = estate_link::canonical_graph(estate, set);
    let none = GraphView::empty();
    let s = MergeState { graph: base, seen: Seq::empty() };
    let g = estate_link::merged(estate, loads, set).graph;
    let n = loads.len() as int;
    lemma_canonical_nodes(none, estate, set.ops, set.ops.len());
    lemma_merged_nodes(s, loads, set.moves, loads.len());
    let p = |x: NodeView| exists|i: int| i < set.ops.len() && #[trigger] is_estate_op(estate, set.ops, i, x);
    let q = |x: NodeView|
        is_plain(x) && exists|r: int|
            r < n && is_loaded(loads, r) && (#[trigger] graph_at(loads, r)).nodes.contains(x);
    let gb = GraphView { nodes: base.nodes, edges: Seq::empty() };
    let gt = GraphView { nodes: g.nodes, edges: Seq::empty() };
    assert(forall|u: Seq<char>| #[trigger] g.has(u) == gt.has(u));
    assert(forall|u: Seq<char>| #[trigger] gb.has(u) == base.has(u));
    assert forall|i: int, x: NodeView| #[trigger] is_estate_op(estate, set.ops, i, x) implies g.has(x.uid) by {
        assert(p(x));
        assert(base.has(x.uid));
        assert(gb.has(x.uid));
        assert(gt.has(x.uid));
    }
    assert forall|r: int, x: NodeView|
        is_loaded(loads, r) && #[trigger] graph_at(loads, r).nodes.contains(x) && is_plain(x) implies g.has(x.uid) by {
        assert(q(x));
        assert(gt.has(x.uid));
    }
    assert forall|x: NodeView| #[trigger] g.nodes.contains(x) implies {
        ||| exists|i: int| #[trigger] is_estate_op(estate, set.ops, i, x)
        ||| is_plain(x) && exists|r: int| is_loaded(loads, r) && (#[trigger] graph_at(loads, r)).nodes.contains(x)
    } by {
        assert(gt.nodes.contains(x));
        if gb.nodes.contains(x) {
            assert(base.nodes.contains(x));
            assert(!none.nodes.contains(x));
            assert(p(x));
            let i = choose|i: int| i < set.ops.len() && #[trigger] is_estate_op(estate, set.ops, i, x);
            assert(is_estate_op(estate, set.ops, i, x));
        } else {
            assert(q(x));
            let r = choose|r: int|
                r < n && is_loaded(loads, r) && (#[trigger] graph_at(loads, r)).nodes.contains(x);
            assert(graph_at(loads, r).nodes.contains(x));
        }
    }
}

// ----------------------------------------------------------------------------------------------
// Consumers
// ----------------------------------------------------------------------------------------------

/// Whether a file of one of the first `n` repositories that loaded offers a link to a consumer.
pub open spec fn estate_offers(
    repos: Seq<RepoEntry>,
    loads: Seq<RepoLoad>,
    signals: Seq<Vec<FileSignals>>,
    n: int,
    c: Seq<char>,
    link: ConsumerLink,
) -> bool {
    exists|r: int, f: int|
        r < n && is_loaded(loads, r) && 0 <= f < signals[r]@.len() && contract_laws::file_offers(
            repos[r].name@,
            #[trigger] signals[r]@[f],
            c,
            link,
        )
}

/// Consumers are linked across an estate: every link that a file of a repository offers is made, to every
/// operation of its format and key in the estate, and no other consumer edge is added. Several owners
/// make a link ambiguous.
pub proof fn law_estate_consumers(
    s: LinkState,
    repos: Seq<RepoEntry>,
    loads: Seq<RepoLoad>,
    signals: Seq<Vec<FileSignals>>,
    owners: Seq<contract::OwnerView>,
    n: nat,
)
    requires
        n <= loads.len(),
        loads.len() == signals.len(),
    ensures
        contract_laws::made(
            s,
            estate_link::linked_upto(s, repos, loads, signals, owners, n),
            owners,
            |c: Seq<char>, l: ConsumerLink| estate_offers(repos, loads, signals, n as int, c, l),
        ),
    decreases n,
{
    let r3 = |c: Seq<char>, l: ConsumerLink| estate_offers(repos, loads, signals, n as int, c, l);
    if n > 0 {
        let m = (n - 1) as nat;
        let last = n - 1;
        law_estate_consumers(s, repos, loads, signals, owners, m);
        let b = estate_link::linked_upto(s, repos, loads, signals, owners, m);
        let t = estate_link::linked_upto(s, repos, loads, signals, owners, n);
        let files = signals[last]@;
        let repo = repos[last].name@;
        let p = |c: Seq<char>, l: ConsumerLink| estate_offers(repos, loads, signals, m as int, c, l);
        if is_loaded(loads, last) {
            let q = |c: Seq<char>, l: ConsumerLink|
                exists|f: int| 0 <= f < files.len() && contract_laws::file_offers(repo, #[trigger] files[f], c, l);
            contract_laws::law_consumers_made(b, repo, files, owners, files.len());
            assert forall|c: Seq<char>, l: ConsumerLink| #[trigger] r3(c, l) == (p(c, l) || q(c, l)) by {
                if r3(c, l) {
                    let (r, f) = choose|r: int, f: int|
                        r < n && is_loaded(loads, r) && 0 <= f < signals[r]@.len() && contract_laws::file_offers(
                            repos[r].name@,
                            #[trigger] signals[r]@[f],
                            c,
                            l,
                        );
                    if r == last {
                        assert(contract_laws::file_offers(repo, files[f], c, l));
                    } else {
                        assert(r < m);
                    }
                }
                if p(c, l) {
                    let (r, f) = choose|r: int, f: int|
                        r < m && is_loaded(loads, r) && 0 <= f < signals[r]@.len() && contract_laws::file_offers(
                            repos[r].name@,
                            #[trigger] signals[r]@[f],
                            c,
                            l,
                        );
                    assert(contract_laws::file_offers(repos[r].name@, signals[r]@[f], c, l));
                }
                if q(c, l) {
                    let f = choose|f: int|
                        0 <= f < files.len() && contract_laws::file_offers(repo, #[trigger] files[f], c, l);
                    assert(contract_laws::file_offers(repos[last].name@, signals[last]@[f], c, l));
                }
            }
            contract_laws::lemma_made_more(s, b, t, owners, p, q, r3);
        } else {
            assert forall|c: Seq<char>, l: ConsumerLink| #[trigger] r3(c, l) == p(c, l) by {
                if r3(c, l) {
                    let (r, f) = choose|r: int, f: int|
                        r < n && is_loaded(loads, r) && 0 <= f < signals[r]@.len() && contract_laws::file_offers(
                            repos[r].name@,
                            #[trigger] signals[r]@[f],
                            c,
                            l,
                        );
                    assert(r < m);
                }
                if p(c, l) {
                    let (r, f) = choose|r: int, f: int|
                        r < m && is_loaded(loads, r) && 0 <= f < signals[r]@.len() && contract_laws::file_offers(
                            repos[r].name@,
                            #[trigger] signals[r]@[f],
                            c,
                            l,
                        );
                    assert(contract_laws::file_offers(repos[r].name@, signals[r]@[f], c, l));
                }
            }
            contract_laws::lemma_made_same(s, t, owners, p, r3);
        }
    } else {
        assert(contract_laws::made(s, s, owners, r3));
    }
}

proof fn lemma_consumes(edges: Seq<EdgeView>, n: nat, p: (Seq<char>, Seq<char>))
    requires
        n <= edges.len(),
    ensures
        estate_link::consumes_upto(edges, n).contains(p) == exists|i: int|
            0 <= i < n && (#[trigger] edges[i]).kind == EdgeKind::Consumes && edges[i].src == p.0 && edges[i].dst == p.1,
    decreases n,
{
    if n > 0 {
        let last = n - 1;
        lemma_consumes(edges, (n - 1) as nat, p);
        let rest = estate_link::consumes_upto(edges, (n - 1) as nat);
        model::lemma_pushed(rest, (edges[last].src, edges[last].dst), p);
    }
}

/// Across an estate every operation owns its key.
pub proof fn law_estate_owners(estate: Seq<char>, ops: Seq<(Seq<char>, OperationDef)>, i: int)
    requires
        0 <= i < ops.len(),
    ensures
        ({
            let o = estate_link::canonical_owners(estate, ops)[i];
            o.format == ops[i].1.format && o.key == ops[i].1.key@ && o.uid == estate_uid(estate, ops[i].0, ops[i].1)
        }),
        estate_link::canonical_owners(estate, ops).len() == ops.len(),
{
    lemma_estate_uid(estate, ops[i].0, ops[i].1);
}

// ----------------------------------------------------------------------------------------------
// Counts
// ----------------------------------------------------------------------------------------------

/// What is counted of a linked estate.
pub enum EstateTally {
    Producers,
    Consumers,
    Extracted,
    Ambiguous,
    Inferred,
}

/// Whether an edge counts.
pub open spec fn edge_counts(e: EdgeView, tally: EstateTally) -> bool {
    match tally {
        EstateTally::Producers => e.kind == EdgeKind::Produces,
        EstateTally::Consumers => e.kind == EdgeKind::Consumes,
        EstateTally::Extracted => e.kind == EdgeKind::Consumes && e.provenance == Provenance::Extracted,
        EstateTally::Ambiguous => e.kind == EdgeKind::Consumes && e.provenance == Provenance::Ambiguous,
        EstateTally::Inferred => e.kind == EdgeKind::Consumes && e.provenance != Provenance::Extracted && e.provenance
            != Provenance::Ambiguous,
    }
}

/// A count.
pub open spec fn estate_tallied(c: LinkCounts, tally: EstateTally) -> nat {
    match tally {
        EstateTally::Producers => c.producers,
        EstateTally::Consumers => c.consumers,
        EstateTally::Extracted => c.extracted,
        EstateTally::Ambiguous => c.ambiguous,
        EstateTally::Inferred => c.inferred,
    }
}

proof fn lemma_edges_counted(edges: Seq<EdgeView>, n: nat, tally: EstateTally)
    requires
        n <= edges.len(),
    ensures
        estate_tallied(estate_link::count_edges(edges, n), tally) == order::counted(
            |i: int| edge_counts(edges[i], tally),
            n,
        ),
        estate_link::count_edges(edges, n).unmatched == 0,
        estate_link::count_edges(edges, n).unparsed == 0,
        estate_link::count_edges(edges, n).spreads == 0,
    decreases n,
{
    if n > 0 {
        lemma_edges_counted(edges, (n - 1) as nat, tally);
    }
}

proof fn lemma_http_counted(c: LinkCounts, http: Seq<contract::CallSignal>, n: nat, tally: EstateTally)
    requires
        n <= http.len(),
    ensures
        ({
            let d = estate_link::count_http(c, http, n);
            &&& estate_tallied(d, tally) == estate_tallied(c, tally)
            &&& d.unmatched == c.unmatched + order::counted(|i: int| http[i].links@.len() == 0, n)
            &&& d.unparsed == c.unparsed && d.spreads == c.spreads
        }),
    decreases n,
{
    if n > 0 {
        lemma_http_counted(c, http, (n - 1) as nat, tally);
    }
}

/// Whether a document counts as one that could not be read: an interpolated one, and one that is declared
/// GraphQL and is none.
pub open spec fn is_unparsed(doc: contract::DocSignal) -> bool {
    !doc.interpolation_free || (doc.tagged && doc.reading is Unparsed)
}

/// The root spreads of a document that were not expanded.
pub open spec fn spreads_of(doc: contract::DocSignal) -> nat {
    if doc.interpolation_free {
        match doc.reading {
            contract::DocReading::Parsed { unresolved_root_spreads, .. } => unresolved_root_spreads as nat,
            contract::DocReading::Unparsed => 0,
        }
    } else {
        0
    }
}

/// The sum over the first `n` documents.
pub open spec fn all_spreads(docs: Seq<contract::DocSignal>, n: nat) -> nat
    decreases n,
{
    if n == 0 {
        0
    } else {
        all_spreads(docs, (n - 1) as nat) + spreads_of(docs[n - 1])
    }
}

proof fn lemma_docs_counted(c: LinkCounts, docs: Seq<contract::DocSignal>, n: nat, tally: EstateTally)
    requires
        n <= docs.len(),
    ensures
        ({
            let d = estate_link::count_docs(c, docs, n);
            &&& estate_tallied(d, tally) == estate_tallied(c, tally)
            &&& d.unparsed == c.unparsed + order::counted(|i: int| is_unparsed(docs[i]), n)
            &&& d.spreads == c.spreads + all_spreads(docs, n)
            &&& d.unmatched == c.unmatched
        }),
    decreases n,
{
    if n > 0 {
        lemma_docs_counted(c, docs, (n - 1) as nat, tally);
    }
}

/// How many HTTP calls of the first `n` files matched nothing, how many documents could not be read, and
/// how many root spreads were not expanded.
pub open spec fn files_tally(files: Seq<FileSignals>, n: nat) -> (nat, nat, nat)
    decreases n,
{
    if n == 0 {
        (0, 0, 0)
    } else {
        let rest = files_tally(files, (n - 1) as nat);
        let f = files[n - 1];
        (
            rest.0 + order::counted(|i: int| f.http@[i].links@.len() == 0, f.http@.len()),
            rest.1 + order::counted(|i: int| is_unparsed(f.docs@[i]), f.docs@.len()),
            rest.2 + all_spreads(f.docs@, f.docs@.len()),
        )
    }
}

proof fn lemma_files_counted(c: LinkCounts, files: Seq<FileSignals>, n: nat, tally: EstateTally)
    requires
        n <= files.len(),
    ensures
        ({
            let d = estate_link::count_files(c, files, n);
            let t = files_tally(files, n);
            &&& estate_tallied(d, tally) == estate_tallied(c, tally)
            &&& d.unmatched == c.unmatched + t.0
            &&& d.unparsed == c.unparsed + t.1
            &&& d.spreads == c.spreads + t.2
        }),
    decreases n,
{
    if n > 0 {
        let m = (n - 1) as nat;
        lemma_files_counted(c, files, m, tally);
        let d = estate_link::count_files(c, files, m);
        let f = files[m as int];
        lemma_http_counted(d, f.http@, f.http@.len(), tally);
        lemma_docs_counted(estate_link::count_http(d, f.http@, f.http@.len()), f.docs@, f.docs@.len(), tally);
    }
}

/// The sums over the repositories that loaded, among the first `n`.
pub open spec fn estate_sums(loads: Seq<RepoLoad>, signals: Seq<Vec<FileSignals>>, n: nat) -> (nat, nat, nat)
    decreases n,
{
    if n == 0 {
        (0, 0, 0)
    } else {
        let rest = estate_sums(loads, signals, (n - 1) as nat);
        if loads[n - 1] is Loaded {
            let t = files_tally(signals[n - 1]@, signals[n - 1]@.len());
            (rest.0 + t.0, rest.1 + t.1, rest.2 + t.2)
        } else {
            rest
        }
    }
}

proof fn lemma_repos_counted(
    c: LinkCounts,
    loads: Seq<RepoLoad>,
    signals: Seq<Vec<FileSignals>>,
    n: nat,
    tally: EstateTally,
)
    requires
        n <= loads.len(),
        loads.len() == signals.len(),
    ensures
        ({
            let d = estate_link::count_repos(c, loads, signals, n);
            let t = estate_sums(loads, signals, n);
            &&& estate_tallied(d, tally) == estate_tallied(c, tally)
            &&& d.unmatched == c.unmatched + t.0
            &&& d.unparsed == c.unparsed + t.1
            &&& d.spreads == c.spreads + t.2
        }),
    decreases n,
{
    if n > 0 {
        let m = (n - 1) as nat;
        lemma_repos_counted(c, loads, signals, m, tally);
        let d = estate_link::count_repos(c, loads, signals, m);
        if loads[n - 1] is Loaded {
            lemma_files_counted(d, signals[n - 1]@, signals[n - 1]@.len(), tally);
        }
    }
}

/// What is reported of a linked estate is what is in its graph and its signals.
pub proof fn law_estate_coverage(
    g: GraphView,
    loads: Seq<RepoLoad>,
    signals: Seq<Vec<FileSignals>>,
    tally: EstateTally,
)
    requires
        loads.len() == signals.len(),
    ensures
        ({
            let c = estate_link::estate_counts(g, loads, signals);
            let edges = model::outgoing(g);
            let t = estate_sums(loads, signals, loads.len());
            &&& estate_tallied(c, tally) == order::counted(|i: int| edge_counts(edges[i], tally), edges.len())
            &&& c.unmatched == t.0
            &&& c.unparsed == t.1
            &&& c.spreads == t.2
        }),
{
    let edges = model::outgoing(g);
    lemma_edges_counted(edges, edges.len(), tally);
    lemma_repos_counted(estate_link::count_edges(edges, edges.len()), loads, signals, loads.len(), tally);
}
/// The pairs that stand linked in a graph are the ends of its edges from consumers, where both are nodes.
pub proof fn law_already_linked(g: GraphView, p: (Seq<char>, Seq<char>))
    ensures
        estate_link::consumes_in(g).contains(p) <==> exists|e: EdgeView| #[trigger]
            g.edges.contains(e) && e.kind == EdgeKind::Consumes && e.src == p.0 && e.dst == p.1 && g.has(e.src) && g.has(
                e.dst,
            ),
{
    let edges = model::outgoing(g);
    lemma_consumes(edges, edges.len(), p);
    if estate_link::consumes_in(g).contains(p) {
        let i = choose|i: int|
            0 <= i < edges.len() && (#[trigger] edges[i]).kind == EdgeKind::Consumes && edges[i].src == p.0
                && edges[i].dst == p.1;
        assert(edges.contains(edges[i]));
        law_edges_between_nodes(g, edges[i]);
        assert(g.edges.contains(edges[i]));
    }
    if exists|e: EdgeView| #[trigger]
        g.edges.contains(e) && e.kind == EdgeKind::Consumes && e.src == p.0 && e.dst == p.1 && g.has(e.src) && g.has(
            e.dst,
        ) {
        let e = choose|e: EdgeView| #[trigger]
            g.edges.contains(e) && e.kind == EdgeKind::Consumes && e.src == p.0 && e.dst == p.1 && g.has(e.src) && g.has(
                e.dst,
            );
        law_edges_between_nodes(g, e);
        let i = choose|i: int| 0 <= i < edges.len() && edges[i] == e;
        assert(edges[i].kind == EdgeKind::Consumes);
    }
}
proof fn lemma_totals_prefix(a: Seq<RepoOutcome>, b: Seq<RepoOutcome>, n: nat)
    requires
        n <= a.len(),
        n <= b.len(),
        forall|i: int| 0 <= i < n ==> a[i] == b[i],
    ensures
        estate::nodes_upto(a, n) == estate::nodes_upto(b, n),
        estate::edges_upto(a, n) == estate::edges_upto(b, n),
    decreases n,
{
    if n > 0 {
        lemma_totals_prefix(a, b, (n - 1) as nat);
    }
}

/// A repository more adds its nodes and its edges to the totals where it was indexed, and nothing where
/// it was not.
pub proof fn law_estate_totals(outcomes: Seq<RepoOutcome>, o: RepoOutcome)
    ensures
        ({
            let n = outcomes.len();
            let more = outcomes.push(o);
            match o {
                RepoOutcome::Indexed(stats) => estate::nodes_upto(more, n + 1) == estate::nodes_upto(outcomes, n)
                    + stats.nodes && estate::edges_upto(more, n + 1) == estate::edges_upto(outcomes, n) + stats.edges,
                _ => estate::nodes_upto(more, n + 1) == estate::nodes_upto(outcomes, n) && estate::edges_upto(more, n + 1)
                    == estate::edges_upto(outcomes, n),
            }
        }),
        estate::nodes_upto(outcomes, 0) == 0,
        estate::edges_upto(outcomes, 0) == 0,
{
    lemma_totals_prefix(outcomes.push(o), outcomes, outcomes.len());
}

} // verus!
