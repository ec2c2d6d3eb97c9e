//! Linking an estate: shared operations, united graphs, consumers across repositories, coverage.
use vstd::prelude::*;

use crate::contract;
use crate::contract::{CallSignal, ContractFormat, DocReading, DocSignal, FileSignals, KeyOwner, LinkState, OperationDef, OwnerView, UidPair};
use crate::estate;
use crate::estate::{RepoIndexResult, RepoLoad};
use crate::manifest;
use crate::manifest::{ApiDecl, RepoEntry, WorkspaceManifest};
use crate::model;
use crate::model::{Edge, EdgeKind, EdgeView, Graph, GraphView, NodeKind, NodeView, Provenance, Uid};
use crate::text;

verus! {

// ----------------------------------------------------------------------------------------------
// Shared operations
// ----------------------------------------------------------------------------------------------

/// An operation of an API of the estate.
#[derive(Debug, PartialEq, Eq)]
pub struct CanonicalOp {
    pub api_id: String,
    pub op: OperationDef,
}

/// The operations of an estate, one for each API, format and key, and for each operation of a
/// repository the identifier that replaces its own.
#[derive(Debug, PartialEq, Eq)]
pub struct CanonicalSet {
    pub ops: Vec<CanonicalOp>,
    pub moves: Vec<UidPair>,
}

/// The value of a [`CanonicalSet`].
#[verifier::ext_equal]
pub struct CanonicalView {
    pub ops: Seq<(Seq<char>, OperationDef)>,
    pub moves: Seq<(Seq<char>, Seq<char>)>,
}

/// The values of a sequence of operations.
pub open spec fn op_views(v: Seq<CanonicalOp>) -> Seq<(Seq<char>, OperationDef)> {
    Seq::new(v.len(), |i: int| (v[i].api_id@, v[i].op))
}

impl View for CanonicalSet {
    type V = CanonicalView;

    open spec fn view(&self) -> CanonicalView {
        CanonicalView { ops: op_views(self.ops@), moves: contract::pair_views(self.moves@) }
    }
}

/// Whether an entry is the operation of this API, format and key.
pub open spec fn is_op(entry: (Seq<char>, OperationDef), api_id: Seq<char>, format: ContractFormat, key: Seq<char>) -> bool {
    entry.0 == api_id && entry.1.format == format && entry.1.key@ == key
}

/// Whether the operation of this API, format and key is listed.
pub open spec fn lists_op(ops: Seq<(Seq<char>, OperationDef)>, api_id: Seq<char>, format: ContractFormat, key: Seq<char>) -> bool {
    exists|i: int| 0 <= i < ops.len() && is_op(#[trigger] ops[i], api_id, format, key)
}

/// The set with the first `n` operations of a repository. The first of an API, format and key is
/// kept.
pub open spec fn with_repo_ops(
    s: CanonicalView,
    estate: Seq<char>,
    repo: RepoEntry,
    ops: Seq<OperationDef>,
    n: nat,
) -> CanonicalView
    decreases n,
{
    if n == 0 {
        s
    } else {
        let t = with_repo_ops(s, estate, repo, ops, (n - 1) as nat);
        let op = ops[n - 1];
        let api_id = manifest::api_of(repo.name@, repo.apis@, op.spec_path@);
        CanonicalView {
            ops: if lists_op(t.ops, api_id, op.format, op.key@) {
                t.ops
            } else {
                t.ops.push((api_id, op))
            },
            moves: t.moves.push(
                (contract::local_uid(repo.name@, op), contract::canonical_uid(estate, api_id, op.format, op.key@)),
            ),
        }
    }
}

/// The operations of the first `n` repositories.
pub open spec fn canonical_upto(estate: Seq<char>, repos: Seq<RepoEntry>, loads: Seq<RepoLoad>, n: nat) -> CanonicalView
    decreases n,
{
    if n == 0 {
        CanonicalView { ops: Seq::empty(), moves: Seq::empty() }
    } else {
        let rest = canonical_upto(estate, repos, loads, (n - 1) as nat);
        match loads[n - 1] {
            RepoLoad::Loaded { operations, .. } => with_repo_ops(
                rest,
                estate,
                repos[n - 1],
                operations@,
                operations@.len(),
            ),
            _ => rest,
        }
    }
}

fn op_listed(ops: &Vec<CanonicalOp>, api_id: &str, format: ContractFormat, key: &str) -> (r: bool)
    ensures
        r == lists_op(op_views(ops@), api_id@, format, key@),
{
    let mut i: usize = 0;
    while i < ops.len()
        invariant
            i <= ops@.len(),
            forall|j: int| 0 <= j < i ==> !is_op(#[trigger] op_views(ops@)[j], api_id@, format, key@),
        decreases ops@.len() - i,
    {
        let o = &ops[i];
        assert(op_views(ops@)[i as int] == (o.api_id@, o.op));
        if text::same(o.api_id.as_str(), api_id) && o.op.format == format && text::same(o.op.key.as_str(), key) {
            return true;
        }
        i = i + 1;
    }
    false
}

fn add_repo_ops(set: &mut CanonicalSet, estate_name: &str, repo: &RepoEntry, operations: &Vec<OperationDef>)
    ensures
        final(set)@ == with_repo_ops(old(set)@, estate_name@, *repo, operations@, operations@.len()),
{
    let ghost start = set@;
    let mut i: usize = 0;
    while i < operations.len()
        invariant
            i <= operations@.len(),
            set@ == with_repo_ops(start, estate_name@, *repo, operations@, i as nat),
        decreases operations@.len() - i,
    {
        let op = &operations[i];
        let ghost before = set@;
        let api_id = manifest::resolve_api_id(repo.name.as_str(), &repo.apis, op.spec_path.as_str());
        let canonical = contract::canonical_operation_uid(estate_name, api_id, op.format, op.key.as_str());
        let local = contract::operation_uid(repo.name.as_str(), op);
        let ghost pair = (local@, canonical@);
        set.moves.push(UidPair { src: local, dst: canonical });
        assert(contract::pair_views(set.moves@) =~= before.moves.push(pair));
        if !op_listed(&set.ops, api_id, op.format, op.key.as_str()) {
            set.ops.push(CanonicalOp { api_id: api_id.to_owned(), op: op.clone() });
            assert(op_views(set.ops@) =~= before.ops.push((api_id@, *op)));
        }
        i = i + 1;
    }
}

/// The operations of an estate: one for each API, format and key, the first in the order of the
/// manifest. Repositories share an operation only where they declare the same API.
pub fn canonical_operations(manifest: &WorkspaceManifest, loads: &Vec<RepoLoad>) -> (r: CanonicalSet)
    requires
        loads@.len() == manifest.repos@.len(),
    ensures
        r@ == canonical_upto(manifest.workspace.name@, manifest.repos@, loads@, loads@.len()),
{
    let mut set = CanonicalSet { ops: Vec::new(), moves: Vec::new() };
    assert(set@ =~= CanonicalView { ops: Seq::empty(), moves: Seq::empty() });
    let mut i: usize = 0;
    while i < loads.len()
        invariant
            i <= loads@.len(),
            loads@.len() == manifest.repos@.len(),
            set@ == canonical_upto(manifest.workspace.name@, manifest.repos@, loads@, i as nat),
        decreases loads@.len() - i,
    {
        match &loads[i] {
            RepoLoad::Loaded { operations, .. } => {
                add_repo_ops(&mut set, manifest.workspace.name.as_str(), &manifest.repos[i], operations);
            },
            _ => {},
        }
        i = i + 1;
    }
    set
}

/// No two entries are of the same API, format and key.
pub open spec fn ops_apart(ops: Seq<(Seq<char>, OperationDef)>) -> bool {
    forall|i: int, j: int|
        0 <= i < j < ops.len() ==> !is_op(#[trigger] ops[j], (#[trigger] ops[i]).0, ops[i].1.format, ops[i].1.key@)
}

proof fn lemma_repo_ops(s: CanonicalView, estate: Seq<char>, repo: RepoEntry, ops: Seq<OperationDef>, n: nat)
    requires
        n <= ops.len(),
        ops_apart(s.ops),
    ensures
        ops_apart(with_repo_ops(s, estate, repo, ops, n).ops),
        s.ops.is_prefix_of(with_repo_ops(s, estate, repo, ops, n).ops),
        forall|k: int|
            0 <= k < n ==> lists_op(
                with_repo_ops(s, estate, repo, ops, n).ops,
                manifest::api_of(repo.name@, repo.apis@, (#[trigger] ops[k]).spec_path@),
                ops[k].format,
                ops[k].key@,
            ),
    decreases n,
{
    if n > 0 {
        let m = (n - 1) as nat;
        lemma_repo_ops(s, estate, repo, ops, m);
        let t = with_repo_ops(s, estate, repo, ops, m);
        let u = with_repo_ops(s, estate, repo, ops, n);
        let op = ops[m as int];
        let api_id = manifest::api_of(repo.name@, repo.apis@, op.spec_path@);
        if !lists_op(t.ops, api_id, op.format, op.key@) {
            assert(is_op(u.ops[t.ops.len() as int], api_id, op.format, op.key@));
            assert forall|i: int, j: int| 0 <= i < j < u.ops.len() implies !is_op(
                #[trigger] u.ops[j],
                (#[trigger] u.ops[i]).0,
                u.ops[i].1.format,
                u.ops[i].1.key@,
            ) by {
                if j == t.ops.len() {
                    assert(!is_op(t.ops[i], api_id, op.format, op.key@));
                }
            }
        }
        assert forall|k: int| 0 <= k < n implies lists_op(
            u.ops,
            manifest::api_of(repo.name@, repo.apis@, (#[trigger] ops[k]).spec_path@),
            ops[k].format,
            ops[k].key@,
        ) by {
            if k < m {
                let a = manifest::api_of(repo.name@, repo.apis@, ops[k].spec_path@);
                let w = choose|w: int| 0 <= w < t.ops.len() && is_op(#[trigger] t.ops[w], a, ops[k].format, ops[k].key@);
                assert(is_op(u.ops[w], a, ops[k].format, ops[k].key@));
            }
        }
    }
}

/// The operations of an estate are apart in API, format and key, and every operation of a
/// repository that loaded is among them.
pub proof fn law_canonical_operations(estate: Seq<char>, repos: Seq<RepoEntry>, loads: Seq<RepoLoad>, n: nat)
    requires
        n <= loads.len(),
    ensures
        ops_apart(canonical_upto(estate, repos, loads, n).ops),
        forall|i: int, k: int|
            0 <= i < n && (#[trigger] loads[i]) is Loaded && 0 <= k < loads[i]->operations@.len() ==> lists_op(
                canonical_upto(estate, repos, loads, n).ops,
                manifest::api_of(repos[i].name@, repos[i].apis@, (#[trigger] loads[i]->operations@[k]).spec_path@),
                loads[i]->operations@[k].format,
                loads[i]->operations@[k].key@,
            ),
    decreases n,
{
    if n > 0 {
        let m = (n - 1) as nat;
        law_canonical_operations(estate, repos, loads, m);
        let t = canonical_upto(estate, repos, loads, m);
        let u = canonical_upto(estate, repos, loads, n);
        match loads[m as int] {
            RepoLoad::Loaded { operations, .. } => {
                lemma_repo_ops(t, estate, repos[m as int], operations@, operations@.len());
            },
            _ => {},
        }
        assert(t.ops.is_prefix_of(u.ops));
        assert forall|i: int, k: int|
            0 <= i < n && (#[trigger] loads[i]) is Loaded && 0 <= k < loads[i]->operations@.len() implies lists_op(
            u.ops,
            manifest::api_of(repos[i].name@, repos[i].apis@, (#[trigger] loads[i]->operations@[k]).spec_path@),
            loads[i]->operations@[k].format,
            loads[i]->operations@[k].key@,
        ) by {
            let op = loads[i]->operations@[k];
            let a = manifest::api_of(repos[i].name@, repos[i].apis@, op.spec_path@);
            if i < m {
                assert(lists_op(t.ops, a, op.format, op.key@));
                let w = choose|w: int| 0 <= w < t.ops.len() && is_op(#[trigger] t.ops[w], a, op.format, op.key@);
                assert(is_op(u.ops[w], a, op.format, op.key@));
            }
        }
    }
}

/// Whether neither the names of the repositories nor the ids of their APIs hold the bar that parts an
/// identifier.
pub open spec fn names_plain(repos: Seq<RepoEntry>) -> bool {
    &&& forall|i: int| 0 <= i < repos.len() ==> !(#[trigger] repos[i]).name@.contains('|')
    &&& forall|i: int, k: int|
        0 <= i < repos.len() && 0 <= k < repos[i].apis@.len() ==> !(#[trigger] repos[i].apis@[k]).id@.contains('|')
}

/// Whether no listed operation is of an API whose id holds a bar.
pub open spec fn ids_plain(ops: Seq<(Seq<char>, OperationDef)>) -> bool {
    forall|i: int| 0 <= i < ops.len() ==> !(#[trigger] ops[i]).0.contains('|')
}

proof fn lemma_api_from(apis: Seq<ApiDecl>, spec_path: Seq<char>, from: int)
    requires
        0 <= from,
    ensures
        manifest::api_from(apis, spec_path, from) matches Some(id) ==> exists|k: int|
            0 <= k < apis.len() && (#[trigger] apis[k]).id@ == id,
    decreases apis.len() - from,
{
    if from < apis.len() {
        lemma_api_from(apis, spec_path, from + 1);
        assert(apis[from].id@ == apis[from].id@);
    }
}

proof fn lemma_repo_ids(
    s: CanonicalView,
    estate: Seq<char>,
    repos: Seq<RepoEntry>,
    r: int,
    ops: Seq<OperationDef>,
    n: nat,
)
    requires
        0 <= r < repos.len(),
        names_plain(repos),
        ids_plain(s.ops),
    ensures
        ids_plain(with_repo_ops(s, estate, repos[r], ops, n).ops),
    decreases n,
{
    if n > 0 {
        lemma_repo_ids(s, estate, repos, r, ops, (n - 1) as nat);
        let apis = repos[r].apis@;
        let op = ops[n - 1];
        lemma_api_from(apis, op.spec_path@, 0);
        let id = manifest::api_of(repos[r].name@, apis, op.spec_path@);
        assert(!id.contains('|')) by {
            assert(!repos[r].name@.contains('|'));
            if manifest::api_from(apis, op.spec_path@, 0) is Some {
                let k = choose|k: int| 0 <= k < apis.len() && (#[trigger] apis[k]).id@ == id;
                assert(!repos[r].apis@[k].id@.contains('|'));
            }
        }
    }
}

proof fn lemma_ids_plain(estate: Seq<char>, repos: Seq<RepoEntry>, loads: Seq<RepoLoad>, n: nat)
    requires
        n <= loads.len() == repos.len(),
        names_plain(repos),
    ensures
        ids_plain(canonical_upto(estate, repos, loads, n).ops),
    decreases n,
{
    if n > 0 {
        lemma_ids_plain(estate, repos, loads, (n - 1) as nat);
        match loads[n - 1] {
            RepoLoad::Loaded { operations, .. } => lemma_repo_ids(
                canonical_upto(estate, repos, loads, (n - 1) as nat),
                estate,
                repos,
                n - 1,
                operations@,
                operations@.len(),
            ),
            _ => {},
        }
    }
}

/// Every operation of an estate has a node of its own: no two of them, apart as they are in API,
/// format or key, share an identifier. An API id that a valid manifest declares holds no bar; the
/// name of a repository, which stands for the API of what it does not declare, may hold none either.
pub proof fn law_operations_share_no_node(
    estate: Seq<char>,
    repos: Seq<RepoEntry>,
    loads: Seq<RepoLoad>,
    i: int,
    j: int,
)
    requires
        loads.len() == repos.len(),
        names_plain(repos),
        0 <= i < j < canonical_upto(estate, repos, loads, loads.len()).ops.len(),
    ensures
        ({
            let ops = canonical_upto(estate, repos, loads, loads.len()).ops;
            contract::canonical_uid(estate, ops[i].0, ops[i].1.format, ops[i].1.key@) != contract::canonical_uid(
                estate,
                ops[j].0,
                ops[j].1.format,
                ops[j].1.key@,
            )
        }),
{
    let ops = canonical_upto(estate, repos, loads, loads.len()).ops;
    lemma_ids_plain(estate, repos, loads, loads.len());
    law_canonical_operations(estate, repos, loads, loads.len());
    assert(!is_op(ops[j], ops[i].0, ops[i].1.format, ops[i].1.key@));
    contract::law_canonical_uid_tells_apart(
        estate,
        ops[i].0,
        ops[i].1.format,
        ops[i].1.key@,
        ops[j].0,
        ops[j].1.format,
        ops[j].1.key@,
    );
}

// ----------------------------------------------------------------------------------------------
// The united graph
// ----------------------------------------------------------------------------------------------

/// The identifier that the first `n` moves put in place of `uid`: the last of them counts.
pub open spec fn moved(moves: Seq<(Seq<char>, Seq<char>)>, uid: Seq<char>, n: nat) -> Seq<char>
    decreases n,
{
    if n == 0 {
        uid
    } else if moves[n - 1].0 == uid {
        moves[n - 1].1
    } else {
        moved(moves, uid, (n - 1) as nat)
    }
}

fn move_uid(moves: &Vec<UidPair>, uid: &Uid) -> (r: Uid)
    ensures
        r@ == moved(contract::pair_views(moves@), uid@, moves@.len()),
{
    let mut n: usize = moves.len();
    while n > 0
        invariant
            n <= moves@.len(),
            moved(contract::pair_views(moves@), uid@, moves@.len()) == moved(
                contract::pair_views(moves@),
                uid@,
                n as nat,
            ),
        decreases n,
    {
        let m = &moves[n - 1];
        assert(contract::pair_views(moves@)[n - 1] == (m.src@, m.dst@));
        if m.src.same(uid) {
            return m.dst.clone();
        }
        n = n - 1;
    }
    uid.clone()
}

/// Whether a node stands for an operation.
pub open spec fn is_operation(kind: NodeKind) -> bool {
    kind == NodeKind::ApiOperation || kind == NodeKind::GraphqlField
}

/// The graph with the nodes of the first `n` operations of the estate.
pub open spec fn with_canonical_nodes(g: GraphView, estate: Seq<char>, ops: Seq<(Seq<char>, OperationDef)>, n: nat) -> GraphView
    decreases n,
{
    if n == 0 {
        g
    } else {
        let op = ops[n - 1].1;
        with_canonical_nodes(g, estate, ops, (n - 1) as nat).with_node(
            contract::operation_node(contract::canonical_uid(estate, ops[n - 1].0, op.format, op.key@), op),
        )
    }
}

/// The graph with those of the first `n` nodes that stand for no operation.
pub open spec fn with_plain_nodes(g: GraphView, nodes: Seq<NodeView>, n: nat) -> GraphView
    decreases n,
{
    if n == 0 {
        g
    } else {
        let h = with_plain_nodes(g, nodes, (n - 1) as nat);
        if is_operation(nodes[n - 1].kind) {
            h
        } else {
            h.with_node(nodes[n - 1])
        }
    }
}

/// A graph that is being united, with the ends and kinds of the edges that were added.
pub struct MergeState {
    pub graph: GraphView,
    pub seen: Seq<(Seq<char>, Seq<char>, EdgeKind)>,
}

/// The state with the first `n` edges, moved. An edge with the ends and kind of an earlier one is
/// left out.
pub open spec fn with_moved_edges(
    s: MergeState,
    edges: Seq<EdgeView>,
    moves: Seq<(Seq<char>, Seq<char>)>,
    n: nat,
) -> MergeState
    decreases n,
{
    if n == 0 {
        s
    } else {
        let t = with_moved_edges(s, edges, moves, (n - 1) as nat);
        let e = edges[n - 1];
        let src = moved(moves, e.src, moves.len());
        let dst = moved(moves, e.dst, moves.len());
        if t.seen.contains((src, dst, e.kind)) {
            t
        } else {
            MergeState {
                graph: t.graph.with_edge(
                    EdgeView { src, dst, kind: e.kind, provenance: e.provenance, confidence: e.confidence },
                ),
                seen: t.seen.push((src, dst, e.kind)),
            }
        }
    }
}

/// The state with the graph of a repository.
pub open spec fn with_repo_graph(s: MergeState, g: GraphView, moves: Seq<(Seq<char>, Seq<char>)>) -> MergeState {
    let edges = model::outgoing(g);
    with_moved_edges(
        MergeState { graph: with_plain_nodes(s.graph, g.nodes, g.nodes.len()), seen: s.seen },
        edges,
        moves,
        edges.len(),
    )
}

/// The state with the graphs of the first `n` repositories.
pub open spec fn merged_upto(s: MergeState, loads: Seq<RepoLoad>, moves: Seq<(Seq<char>, Seq<char>)>, n: nat) -> MergeState
    decreases n,
{
    if n == 0 {
        s
    } else {
        let t = merged_upto(s, loads, moves, (n - 1) as nat);
        match loads[n - 1] {
            RepoLoad::Loaded { graph, .. } => with_repo_graph(t, graph@, moves),
            _ => t,
        }
    }
}

/// The graph of the operations of an estate.
pub open spec fn canonical_graph(estate: Seq<char>, set: CanonicalView) -> GraphView {
    with_canonical_nodes(GraphView::empty(), estate, set.ops, set.ops.len())
}

/// The graphs of an estate, united on the operations of the estate.
pub open spec fn merged(estate: Seq<char>, loads: Seq<RepoLoad>, set: CanonicalView) -> MergeState {
    merged_upto(
        MergeState { graph: canonical_graph(estate, set), seen: Seq::empty() },
        loads,
        set.moves,
        loads.len(),
    )
}

/// The ends and the kind of an edge.
#[derive(Debug, PartialEq, Eq)]
pub struct EdgeMark {
    pub src: Uid,
    pub dst: Uid,
    pub kind: EdgeKind,
}

/// The values of a sequence of marks.
pub open spec fn mark_views(v: Seq<EdgeMark>) -> Seq<(Seq<char>, Seq<char>, EdgeKind)> {
    Seq::new(v.len(), |i: int| (v[i].src@, v[i].dst@, v[i].kind))
}

fn is_marked(seen: &Vec<EdgeMark>, src: &Uid, dst: &Uid, kind: EdgeKind) -> (r: bool)
    ensures
        r == mark_views(seen@).contains((src@, dst@, kind)),
{
    let mut i: usize = 0;
    while i < seen.len()
        invariant
            i <= seen@.len(),
            forall|j: int| 0 <= j < i ==> #[trigger] mark_views(seen@)[j] != (src@, dst@, kind),
        decreases seen@.len() - i,
    {
        let m = &seen[i];
        assert(mark_views(seen@)[i as int] == (m.src@, m.dst@, m.kind));
        if m.src.same(src) && m.dst.same(dst) && m.kind == kind {
            return true;
        }
        i = i + 1;
    }
    false
}

/// The state of a graph and its marks.
pub open spec fn merge_state(g: Graph, seen: Seq<EdgeMark>) -> MergeState {
    MergeState { graph: g@, seen: mark_views(seen) }
}

fn merge_repo(g: &mut Graph, seen: &mut Vec<EdgeMark>, repo: &Graph, moves: &Vec<UidPair>)
    ensures
        merge_state(*final(g), final(seen)@) == with_repo_graph(
            merge_state(*old(g), old(seen)@),
            repo@,
            contract::pair_views(moves@),
        ),
{
    let ghost start = g@;
    let ghost mv = contract::pair_views(moves@);
    let mut i: usize = 0;
    while i < repo.nodes.len()
        invariant
            i <= repo.nodes@.len(),
            g@ == with_plain_nodes(start, repo@.nodes, i as nat),
        decreases repo.nodes@.len() - i,
    {
        let node = &repo.nodes[i];
        assert(repo@.nodes[i as int] == node@);
        if !(node.kind == NodeKind::ApiOperation || node.kind == NodeKind::GraphqlField) {
            g.add_node(node.clone());
        }
        i = i + 1;
    }
    let edges = repo.outgoing_edges();
    let ghost ev = model::edge_views(edges@);
    let ghost mid = merge_state(*g, seen@);
    let mut j: usize = 0;
    while j < edges.len()
        invariant
            j <= edges@.len(),
            mv == contract::pair_views(moves@),
            ev == model::edge_views(edges@),
            merge_state(*g, seen@) == with_moved_edges(mid, ev, mv, j as nat),
        decreases edges@.len() - j,
    {
        let e = &edges[j];
        assert(ev[j as int] == e@);
        let src = move_uid(moves, &e.src);
        let dst = move_uid(moves, &e.dst);
        if !is_marked(seen, &src, &dst, e.kind) {
            let ghost before = mark_views(seen@);
            let ghost sv = src@;
            let ghost dv = dst@;
            seen.push(EdgeMark { src: src.clone(), dst: dst.clone(), kind: e.kind });
            assert(mark_views(seen@) =~= before.push((sv, dv, e.kind)));
            g.add_edge(Edge { src, dst, kind: e.kind, provenance: e.provenance, confidence: e.confidence });
        }
        j = j + 1;
    }
}

fn merge_estate(estate_name: &str, loads: &Vec<RepoLoad>, set: &CanonicalSet) -> (r: Graph)
    ensures
        r@ == merged(estate_name@, loads@, set@).graph,
{
    let mut g = Graph::new();
    let mut i: usize = 0;
    while i < set.ops.len()
        invariant
            i <= set.ops@.len(),
            g@ == with_canonical_nodes(GraphView::empty(), estate_name@, set@.ops, i as nat),
        decreases set.ops@.len() - i,
    {
        let c = &set.ops[i];
        assert(set@.ops[i as int] == (c.api_id@, c.op));
        g.add_node(contract::canonical_operation_node(estate_name, c.api_id.as_str(), &c.op));
        i = i + 1;
    }
    let mut seen: Vec<EdgeMark> = Vec::new();
    assert(mark_views(seen@) =~= Seq::<(Seq<char>, Seq<char>, EdgeKind)>::empty());
    let ghost start = merge_state(g, seen@);
    let mut k: usize = 0;
    while k < loads.len()
        invariant
            k <= loads@.len(),
            merge_state(g, seen@) == merged_upto(start, loads@, set@.moves, k as nat),
        decreases loads@.len() - k,
    {
        match &loads[k] {
            RepoLoad::Loaded { graph, .. } => {
                merge_repo(&mut g, &mut seen, graph, &set.moves);
            },
            _ => {},
        }
        k = k + 1;
    }
    g
}

// ----------------------------------------------------------------------------------------------
// Consumers across repositories
// ----------------------------------------------------------------------------------------------

/// The owners of the keys of an estate: every operation owns its key, so that a key of several APIs
/// has several owners.
pub open spec fn canonical_owners(estate: Seq<char>, ops: Seq<(Seq<char>, OperationDef)>) -> Seq<OwnerView> {
    Seq::new(
        ops.len(),
        |i: int|
            OwnerView {
                format: ops[i].1.format,
                key: ops[i].1.key@,
                uid: contract::canonical_uid(estate, ops[i].0, ops[i].1.format, ops[i].1.key@),
            },
    )
}

fn owners_of(estate_name: &str, set: &CanonicalSet) -> (r: Vec<KeyOwner>)
    ensures
        contract::owner_views(r@) == canonical_owners(estate_name@, set@.ops),
{
    let ghost want = canonical_owners(estate_name@, set@.ops);
    let mut out: Vec<KeyOwner> = Vec::new();
    let mut i: usize = 0;
    while i < set.ops.len()
        invariant
            i <= set.ops@.len(),
            out@.len() == i,
            want == canonical_owners(estate_name@, set@.ops),
            forall|j: int| 0 <= j < i ==> (#[trigger] out@[j])@ == want[j],
        decreases set.ops@.len() - i,
    {
        let c = &set.ops[i];
        assert(set@.ops[i as int] == (c.api_id@, c.op));
        let uid = contract::canonical_operation_uid(estate_name, c.api_id.as_str(), c.op.format, c.op.key.as_str());
        out.push(KeyOwner { format: c.op.format, key: c.op.key.clone(), uid });
        assert(out@[i as int]@ == want[i as int]);
        i = i + 1;
    }
    assert(contract::owner_views(out@) =~= want);
    out
}

/// The consumer pairs among the first `n` edges.
pub open spec fn consumes_upto(edges: Seq<EdgeView>, n: nat) -> Seq<(Seq<char>, Seq<char>)>
    decreases n,
{
    if n == 0 {
        Seq::empty()
    } else {
        let rest = consumes_upto(edges, (n - 1) as nat);
        let e = edges[n - 1];
        if e.kind == EdgeKind::Consumes {
            rest.push((e.src, e.dst))
        } else {
            rest
        }
    }
}

/// The consumer pairs of a graph.
pub open spec fn consumes_in(g: GraphView) -> Seq<(Seq<char>, Seq<char>)> {
    let edges = model::outgoing(g);
    consumes_upto(edges, edges.len())
}

fn consumes_of(g: &Graph) -> (r: Vec<UidPair>)
    ensures
        contract::pair_views(r@) == consumes_in(g@),
{
    let edges = g.outgoing_edges();
    let ghost ev = model::edge_views(edges@);
    let mut out: Vec<UidPair> = Vec::new();
    assert(contract::pair_views(out@) =~= consumes_upto(ev, 0));
    let mut i: usize = 0;
    while i < edges.len()
        invariant
            i <= edges@.len(),
            ev == model::edge_views(edges@),
            contract::pair_views(out@) == consumes_upto(ev, i as nat),
        decreases edges@.len() - i,
    {
        let e = &edges[i];
        assert(ev[i as int] == e@);
        if e.kind == EdgeKind::Consumes {
            let ghost before = contract::pair_views(out@);
            out.push(UidPair { src: e.src.clone(), dst: e.dst.clone() });
            assert(contract::pair_views(out@) =~= before.push((e@.src, e@.dst)));
        }
        i = i + 1;
    }
    out
}

/// The state with the consumer edges of the first `n` repositories, over those that loaded.
pub open spec fn linked_upto(
    s: LinkState,
    repos: Seq<RepoEntry>,
    loads: Seq<RepoLoad>,
    signals: Seq<Vec<FileSignals>>,
    owners: Seq<OwnerView>,
    n: nat,
) -> LinkState
    decreases n,
{
    if n == 0 {
        s
    } else {
        let t = linked_upto(s, repos, loads, signals, owners, (n - 1) as nat);
        if loads[n - 1] is Loaded {
            contract::with_consumers(t, repos[n - 1].name@, signals[n - 1]@, owners, signals[n - 1]@.len())
        } else {
            t
        }
    }
}

/// The graph of a linked estate.
pub open spec fn linked_estate(
    estate: Seq<char>,
    repos: Seq<RepoEntry>,
    loads: Seq<RepoLoad>,
    signals: Seq<Vec<FileSignals>>,
) -> GraphView {
    let set = canonical_upto(estate, repos, loads, loads.len());
    let g = merged(estate, loads, set).graph;
    linked_upto(
        LinkState { graph: g, linked: consumes_in(g) },
        repos,
        loads,
        signals,
        canonical_owners(estate, set.ops),
        loads.len(),
    ).graph
}

// ----------------------------------------------------------------------------------------------
// Coverage
// ----------------------------------------------------------------------------------------------

/// Consumer links by provenance.
#[derive(Clone, Copy, Debug, PartialEq, Eq, Structural)]
pub struct TierCounts {
    pub extracted: usize,
    pub inferred: usize,
    pub ambiguous: usize,
}

/// How well an estate is linked.
#[derive(Clone, Copy, Debug, PartialEq, Eq, Structural)]
pub struct EstateLinkCoverage {
    /// Producer edges.
    pub producers_total: usize,
    /// Consumer edges, those of a fan-out over several APIs among them.
    pub consumers_total: usize,
    /// Consumer edges that are part of a fan-out.
    pub consumers_ambiguous: usize,
    pub by_tier: TierCounts,
    /// HTTP calls that matched no operation.
    pub unmatched_consumers: usize,
    /// Documents that are declared GraphQL and could not be read.
    pub unparsed_documents: usize,
    /// Root-level fragments of documents that were not expanded.
    pub unresolved_root_spreads: usize,
}

/// The counts of an [`EstateLinkCoverage`], without bound.
pub struct LinkCounts {
    pub producers: nat,
    pub consumers: nat,
    pub extracted: nat,
    pub inferred: nat,
    pub ambiguous: nat,
    pub unmatched: nat,
    pub unparsed: nat,
    pub spreads: nat,
}

impl LinkCounts {
    /// Nothing counted.
    pub open spec fn zero() -> LinkCounts {
        LinkCounts {
            producers: 0,
            consumers: 0,
            extracted: 0,
            inferred: 0,
            ambiguous: 0,
            unmatched: 0,
            unparsed: 0,
            spreads: 0,
        }
    }
}

impl EstateLinkCoverage {
    /// Whether this holds these counts.
    pub open spec fn counts(self, c: LinkCounts) -> bool {
        &&& self.producers_total == model::cap(c.producers)
        &&& self.consumers_total == model::cap(c.consumers)
        &&& self.consumers_ambiguous == model::cap(c.ambiguous)
        &&& self.by_tier.extracted == model::cap(c.extracted)
        &&& self.by_tier.inferred == model::cap(c.inferred)
        &&& self.by_tier.ambiguous == model::cap(c.ambiguous)
        &&& self.unmatched_consumers == model::cap(c.unmatched)
        &&& self.unparsed_documents == model::cap(c.unparsed)
        &&& self.unresolved_root_spreads == model::cap(c.spreads)
    }
}

impl Default for EstateLinkCoverage {
    fn default() -> (r: EstateLinkCoverage)
        ensures
            r.counts(LinkCounts::zero()),
    {
        EstateLinkCoverage {
            producers_total: 0,
            consumers_total: 0,
            consumers_ambiguous: 0,
            by_tier: TierCounts { extracted: 0, inferred: 0, ambiguous: 0 },
            unmatched_consumers: 0,
            unparsed_documents: 0,
            unresolved_root_spreads: 0,
        }
    }
}

/// The counts with one edge.
pub open spec fn count_edge(c: LinkCounts, e: EdgeView) -> LinkCounts {
    match e.kind {
        EdgeKind::Produces => LinkCounts { producers: c.producers + 1, ..c },
        EdgeKind::Consumes => match e.provenance {
            Provenance::Extracted => LinkCounts { consumers: c.consumers + 1, extracted: c.extracted + 1, ..c },
            Provenance::Ambiguous => LinkCounts { consumers: c.consumers + 1, ambiguous: c.ambiguous + 1, ..c },
            _ => LinkCounts { consumers: c.consumers + 1, inferred: c.inferred + 1, ..c },
        },
        _ => c,
    }
}

/// The counts of the first `n` edges.
pub open spec fn count_edges(edges: Seq<EdgeView>, n: nat) -> LinkCounts
    decreases n,
{
    if n == 0 {
        LinkCounts::zero()
    } else {
        count_edge(count_edges(edges, (n - 1) as nat), edges[n - 1])
    }
}

/// The counts with those of the first `n` HTTP calls that matched nothing.
pub open spec fn count_http(c: LinkCounts, http: Seq<CallSignal>, n: nat) -> LinkCounts
    decreases n,
{
    if n == 0 {
        c
    } else {
        let d = count_http(c, http, (n - 1) as nat);
        if http[n - 1].links@.len() == 0 {
            LinkCounts { unmatched: d.unmatched + 1, ..d }
        } else {
            d
        }
    }
}

/// The counts with one document. One that is interpolated could not be read; neither could one that
/// is declared GraphQL and is none. A template that never claimed to be GraphQL is passed over.
pub open spec fn count_doc(c: LinkCounts, doc: DocSignal) -> LinkCounts {
    if !doc.interpolation_free {
        LinkCounts { unparsed: c.unparsed + 1, ..c }
    } else {
        match doc.reading {
            DocReading::Parsed { unresolved_root_spreads, .. } => LinkCounts {
                spreads: c.spreads + unresolved_root_spreads as nat,
                ..c
            },
            DocReading::Unparsed => if doc.tagged {
                LinkCounts { unparsed: c.unparsed + 1, ..c }
            } else {
                c
            },
        }
    }
}

/// The counts with the first `n` documents.
pub open spec fn count_docs(c: LinkCounts, docs: Seq<DocSignal>, n: nat) -> LinkCounts
    decreases n,
{
    if n == 0 {
        c
    } else {
        count_doc(count_docs(c, docs, (n - 1) as nat), docs[n - 1])
    }
}

/// The counts with the signals of the first `n` files.
pub open spec fn count_files(c: LinkCounts, files: Seq<FileSignals>, n: nat) -> LinkCounts
    decreases n,
{
    if n == 0 {
        c
    } else {
        let d = count_files(c, files, (n - 1) as nat);
        let f = files[n - 1];
        count_docs(count_http(d, f.http@, f.http@.len()), f.docs@, f.docs@.len())
    }
}

/// The counts with the signals of the first `n` repositories, over those that loaded.
pub open spec fn count_repos(c: LinkCounts, loads: Seq<RepoLoad>, signals: Seq<Vec<FileSignals>>, n: nat) -> LinkCounts
    decreases n,
{
    if n == 0 {
        c
    } else {
        let d = count_repos(c, loads, signals, (n - 1) as nat);
        if loads[n - 1] is Loaded {
            count_files(d, signals[n - 1]@, signals[n - 1]@.len())
        } else {
            d
        }
    }
}

/// The coverage of a linked estate: its edges between nodes, and the signals of its repositories.
pub open spec fn estate_counts(g: GraphView, loads: Seq<RepoLoad>, signals: Seq<Vec<FileSignals>>) -> LinkCounts {
    let edges = model::outgoing(g);
    count_repos(count_edges(edges, edges.len()), loads, signals, loads.len())
}

fn tally_edges(g: &Graph) -> (r: EstateLinkCoverage)
    ensures
        r.counts(count_edges(model::outgoing(g@), model::outgoing(g@).len())),
{
    let edges = g.outgoing_edges();
    let ghost ev = model::edge_views(edges@);
    let mut cov = EstateLinkCoverage::default();
    let mut i: usize = 0;
    while i < edges.len()
        invariant
            i <= edges@.len(),
            ev == model::edge_views(edges@),
            cov.counts(count_edges(ev, i as nat)),
        decreases edges@.len() - i,
    {
        let e = &edges[i];
        assert(ev[i as int] == e@);
        match e.kind {
            EdgeKind::Produces => {
                cov.producers_total = model::bump(cov.producers_total);
            },
            EdgeKind::Consumes => {
                cov.consumers_total = model::bump(cov.consumers_total);
                match e.provenance {
                    Provenance::Extracted => {
                        cov.by_tier.extracted = model::bump(cov.by_tier.extracted);
                    },
                    Provenance::Ambiguous => {
                        cov.by_tier.ambiguous = model::bump(cov.by_tier.ambiguous);
                        cov.consumers_ambiguous = model::bump(cov.consumers_ambiguous);
                    },
                    _ => {
                        cov.by_tier.inferred = model::bump(cov.by_tier.inferred);
                    },
                }
            },
            _ => {},
        }
        i = i + 1;
    }
    cov
}

fn tally_files(cov: &mut EstateLinkCoverage, files: &Vec<FileSignals>, Ghost(c): Ghost<LinkCounts>)
    requires
        old(cov).counts(c),
    ensures
        final(cov).counts(count_files(c, files@, files@.len())),
{
    let mut i: usize = 0;
    while i < files.len()
        invariant
            i <= files@.len(),
            cov.counts(count_files(c, files@, i as nat)),
        decreases files@.len() - i,
    {
        let f = &files[i];
        let ghost d = count_files(c, files@, i as nat);
        let mut j: usize = 0;
        while j < f.http.len()
            invariant
                j <= f.http@.len(),
                cov.counts(count_http(d, f.http@, j as nat)),
            decreases f.http@.len() - j,
        {
            if f.http[j].links.len() == 0 {
                cov.unmatched_consumers = model::bump(cov.unmatched_consumers);
            }
            j = j + 1;
        }
        let ghost h = count_http(d, f.http@, f.http@.len());
        let mut k: usize = 0;
        while k < f.docs.len()
            invariant
                k <= f.docs@.len(),
                cov.counts(count_docs(h, f.docs@, k as nat)),
            decreases f.docs@.len() - k,
        {
            let doc = &f.docs[k];
            if !doc.interpolation_free {
                cov.unparsed_documents = model::bump(cov.unparsed_documents);
            } else {
                match &doc.reading {
                    DocReading::Parsed { unresolved_root_spreads, .. } => {
                        cov.unresolved_root_spreads =
                        model::plus(cov.unresolved_root_spreads, *unresolved_root_spreads);
                    },
                    DocReading::Unparsed => {
                        if doc.tagged {
                            cov.unparsed_documents = model::bump(cov.unparsed_documents);
                        }
                    },
                }
            }
            k = k + 1;
        }
        i = i + 1;
    }
}

/// Tallies the coverage of a linked estate.
pub fn compute_coverage(estate: &Graph, loads: &Vec<RepoLoad>, signals: &Vec<Vec<FileSignals>>) -> (r: EstateLinkCoverage)
    requires
        loads@.len() == signals@.len(),
    ensures
        r.counts(estate_counts(estate@, loads@, signals@)),
{
    let mut cov = tally_edges(estate);
    let ghost start = count_edges(model::outgoing(estate@), model::outgoing(estate@).len());
    let mut i: usize = 0;
    while i < loads.len()
        invariant
            i <= loads@.len(),
            loads@.len() == signals@.len(),
            cov.counts(count_repos(start, loads@, signals@, i as nat)),
        decreases loads@.len() - i,
    {
        match &loads[i] {
            RepoLoad::Loaded { .. } => {
                tally_files(&mut cov, &signals[i], Ghost(count_repos(start, loads@, signals@, i as nat)));
            },
            _ => {},
        }
        i = i + 1;
    }
    cov
}

/// Links an estate: unites the graphs of the repositories that loaded on the operations of the
/// estate, and links consumers to operations across repositories. `signals` are the consumer
/// signals of each repository, matched against the operations of the estate
/// ([`canonical_operations`]).
pub fn link_estate(manifest: &WorkspaceManifest, loads: &Vec<RepoLoad>, signals: &Vec<Vec<FileSignals>>) -> (r: (
    Graph,
    EstateLinkCoverage,
    Vec<RepoIndexResult>,
))
    requires
        loads@.len() == manifest.repos@.len(),
        signals@.len() == manifest.repos@.len(),
    ensures
        r.0@ == linked_estate(manifest.workspace.name@, manifest.repos@, loads@, signals@),
        r.1.counts(estate_counts(r.0@, loads@, signals@)),
        r.2@.len() == manifest.repos@.len(),
        forall|i: int| 0 <= i < r.2@.len() ==> estate::records_load(#[trigger] r.2@[i], manifest.repos@[i], loads@[i]),
{
    let results = estate::load_results(manifest, loads);
    let set = canonical_operations(manifest, loads);
    let mut g = merge_estate(manifest.workspace.name.as_str(), loads, &set);
    let owners = owners_of(manifest.workspace.name.as_str(), &set);
    let mut existing = consumes_of(&g);
    let ghost ov = contract::owner_views(owners@);
    let ghost start = contract::link_state(g, existing@);
    let mut i: usize = 0;
    while i < loads.len()
        invariant
            i <= loads@.len(),
            loads@.len() == manifest.repos@.len(),
            signals@.len() == manifest.repos@.len(),
            ov == contract::owner_views(owners@),
            contract::link_state(g, existing@) == linked_upto(start, manifest.repos@, loads@, signals@, ov, i as nat),
        decreases loads@.len() - i,
    {
        match &loads[i] {
            RepoLoad::Loaded { .. } => {
                contract::link_consumers_into(&mut g, manifest.repos[i].name.as_str(), &signals[i], &owners, &mut existing);
            },
            _ => {},
        }
        i = i + 1;
    }
    let coverage = compute_coverage(&g, loads, signals);
    (g, coverage, results)
}

// ----------------------------------------------------------------------------------------------
// Laws
// ----------------------------------------------------------------------------------------------

/// Whether the graph of every repository that loaded is sound.
pub open spec fn loads_sound(loads: Seq<RepoLoad>) -> bool {
    forall|i: int|
        0 <= i < loads.len() && (#[trigger] loads[i]) is Loaded ==> model::sound(loads[i]->graph@)
}

/// Whether an identifier is that of an operation of the estate.
pub open spec fn is_canonical(estate: Seq<char>, ops: Seq<(Seq<char>, OperationDef)>, uid: Seq<char>) -> bool {
    exists|i: int|
        0 <= i < ops.len() && uid == contract::canonical_uid(
            estate,
            (#[trigger] ops[i]).0,
            ops[i].1.format,
            ops[i].1.key@,
        )
}

/// Whether every operation of a graph is one of the estate.
pub open spec fn only_canonical(estate: Seq<char>, ops: Seq<(Seq<char>, OperationDef)>, g: GraphView) -> bool {
    forall|i: int|
        0 <= i < g.nodes.len() && is_operation((#[trigger] g.nodes[i]).kind) ==> is_canonical(
            estate,
            ops,
            g.nodes[i].uid,
        )
}

/// Whether an edge has these ends and this kind.
pub open spec fn marked(e: EdgeView, mark: (Seq<char>, Seq<char>, EdgeKind)) -> bool {
    e.src == mark.0 && e.dst == mark.1 && e.kind == mark.2
}

/// Whether no two edges share their ends and their kind.
pub open spec fn edges_apart(g: GraphView) -> bool {
    forall|i: int, j: int|
        0 <= i < j < g.edges.len() ==> !marked(
            #[trigger] g.edges[i],
            ((#[trigger] g.edges[j]).src, g.edges[j].dst, g.edges[j].kind),
        )
}

/// Whether a graph that is being united has no operation but those of the estate, and has one edge
/// for each mark, and no mark twice.
pub open spec fn merging(estate: Seq<char>, ops: Seq<(Seq<char>, OperationDef)>, s: MergeState) -> bool {
    &&& only_canonical(estate, ops, s.graph)
    &&& s.graph.edges.len() == s.seen.len()
    &&& forall|k: int| 0 <= k < s.seen.len() ==> marked(s.graph.edges[k], #[trigger] s.seen[k])
    &&& s.seen.no_duplicates()
}

proof fn lemma_canonical_node(
    estate: Seq<char>,
    ops: Seq<(Seq<char>, OperationDef)>,
    g: GraphView,
    node: NodeView,
)
    requires
        only_canonical(estate, ops, g),
        is_operation(node.kind) ==> is_canonical(estate, ops, node.uid),
    ensures
        only_canonical(estate, ops, g.with_node(node)),
{
    let h = g.with_node(node);
    assert forall|i: int| 0 <= i < h.nodes.len() && is_operation((#[trigger] h.nodes[i]).kind) implies is_canonical(
        estate,
        ops,
        h.nodes[i].uid,
    ) by {
        if i < g.nodes.len() && h.nodes[i] != node {
            assert(h.nodes[i] == g.nodes[i]);
        }
    }
}

proof fn lemma_canonical_nodes(estate: Seq<char>, ops: Seq<(Seq<char>, OperationDef)>, n: nat)
    requires
        n <= ops.len(),
    ensures
        model::sound(with_canonical_nodes(GraphView::empty(), estate, ops, n)),
        only_canonical(estate, ops, with_canonical_nodes(GraphView::empty(), estate, ops, n)),
        with_canonical_nodes(GraphView::empty(), estate, ops, n).edges.len() == 0,
    decreases n,
{
    if n > 0 {
        lemma_canonical_nodes(estate, ops, (n - 1) as nat);
        let h = with_canonical_nodes(GraphView::empty(), estate, ops, (n - 1) as nat);
        let op = ops[n - 1].1;
        let node = contract::operation_node(contract::canonical_uid(estate, ops[n - 1].0, op.format, op.key@), op);
        model::law_with_node(h, node);
        model::lemma_keeps_node(h, h, node);
        lemma_canonical_node(estate, ops, h, node);
    }
}

proof fn lemma_plain_nodes(
    estate: Seq<char>,
    ops: Seq<(Seq<char>, OperationDef)>,
    g: GraphView,
    nodes: Seq<NodeView>,
    n: nat,
)
    requires
        only_canonical(estate, ops, g),
    ensures
        model::sound(g) ==> model::sound(with_plain_nodes(g, nodes, n)),
        only_canonical(estate, ops, with_plain_nodes(g, nodes, n)),
        with_plain_nodes(g, nodes, n).edges == g.edges,
    decreases n,
{
    if n > 0 {
        lemma_plain_nodes(estate, ops, g, nodes, (n - 1) as nat);
        let h = with_plain_nodes(g, nodes, (n - 1) as nat);
        if !is_operation(nodes[n - 1].kind) {
            model::law_with_node(h, nodes[n - 1]);
            model::lemma_keeps_node(h, h, nodes[n - 1]);
            lemma_canonical_node(estate, ops, h, nodes[n - 1]);
        }
    }
}

/// Whether every edge of a list lies in the band of its provenance.
pub open spec fn edges_banded(edges: Seq<EdgeView>) -> bool {
    forall|i: int| 0 <= i < edges.len() ==> model::in_band((#[trigger] edges[i]).provenance, edges[i].confidence)
}

proof fn lemma_moved_edges(
    estate: Seq<char>,
    ops: Seq<(Seq<char>, OperationDef)>,
    s: MergeState,
    edges: Seq<EdgeView>,
    moves: Seq<(Seq<char>, Seq<char>)>,
    n: nat,
)
    requires
        n <= edges.len(),
        merging(estate, ops, s),
    ensures
        merging(estate, ops, with_moved_edges(s, edges, moves, n)),
        edges_banded(edges) && model::sound(s.graph) ==> model::sound(with_moved_edges(s, edges, moves, n).graph),
    decreases n,
{
    if n > 0 {
        lemma_moved_edges(estate, ops, s, edges, moves, (n - 1) as nat);
        let t = with_moved_edges(s, edges, moves, (n - 1) as nat);
        let u = with_moved_edges(s, edges, moves, n);
        let e = edges[n - 1];
        let src = moved(moves, e.src, moves.len());
        let dst = moved(moves, e.dst, moves.len());
        if !t.seen.contains((src, dst, e.kind)) {
            let f = EdgeView { src, dst, kind: e.kind, provenance: e.provenance, confidence: e.confidence };
            if edges_banded(edges) {
                assert(model::in_band(edges[n - 1].provenance, edges[n - 1].confidence));
                model::lemma_keeps_edge(t.graph, t.graph, f);
            }
            assert(u.graph == t.graph.with_edge(f));
            assert(u.graph.nodes == t.graph.nodes);
            assert forall|k: int| 0 <= k < u.seen.len() implies marked(u.graph.edges[k], #[trigger] u.seen[k]) by {
                if k < t.seen.len() {
                    assert(u.seen[k] == t.seen[k]);
                    assert(u.graph.edges[k] == t.graph.edges[k]);
                }
            }
            assert(u.seen.no_duplicates()) by {
                assert forall|i: int, j: int| 0 <= i < u.seen.len() && 0 <= j < u.seen.len() && i != j implies u.seen[i]
                    != u.seen[j] by {
                    if i < t.seen.len() && j < t.seen.len() {
                        assert(t.seen[i] != t.seen[j]);
                    }
                }
            }
        }
    }
}

proof fn lemma_merged(
    estate: Seq<char>,
    ops: Seq<(Seq<char>, OperationDef)>,
    s: MergeState,
    loads: Seq<RepoLoad>,
    moves: Seq<(Seq<char>, Seq<char>)>,
    n: nat,
)
    requires
        n <= loads.len(),
        merging(estate, ops, s),
    ensures
        merging(estate, ops, merged_upto(s, loads, moves, n)),
        loads_sound(loads) && model::sound(s.graph) ==> model::sound(merged_upto(s, loads, moves, n).graph),
    decreases n,
{
    if n > 0 {
        lemma_merged(estate, ops, s, loads, moves, (n - 1) as nat);
        let t = merged_upto(s, loads, moves, (n - 1) as nat);
        match loads[n - 1] {
            RepoLoad::Loaded { graph, .. } => {
                let g = graph@;
                lemma_plain_nodes(estate, ops, t.graph, g.nodes, g.nodes.len());
                let edges = model::outgoing(g);
                model::law_outgoing(g);
                if loads_sound(loads) {
                    assert(model::sound(loads[n - 1]->graph@));
                    assert forall|i: int| 0 <= i < edges.len() implies model::in_band(
                        (#[trigger] edges[i]).provenance,
                        edges[i].confidence,
                    ) by {
                        assert(g.edges.contains(edges[i]));
                        let j = choose|j: int| 0 <= j < g.edges.len() && g.edges[j] == edges[i];
                        assert(model::in_band(g.edges[j].provenance, g.edges[j].confidence));
                    }
                }
                let u = MergeState { graph: with_plain_nodes(t.graph, g.nodes, g.nodes.len()), seen: t.seen };
                lemma_moved_edges(estate, ops, u, edges, moves, edges.len());
            },
            _ => {},
        }
    }
}

/// Whether every match of every repository has a grade.
pub open spec fn all_gradable(signals: Seq<Vec<FileSignals>>) -> bool {
    forall|i: int| 0 <= i < signals.len() ==> contract::signals_gradable((#[trigger] signals[i])@)
}

proof fn lemma_linked(
    g: GraphView,
    s: LinkState,
    base: Seq<(Seq<char>, Seq<char>)>,
    repos: Seq<RepoEntry>,
    loads: Seq<RepoLoad>,
    signals: Seq<Vec<FileSignals>>,
    owners: Seq<OwnerView>,
    n: nat,
)
    requires
        n <= signals.len(),
        contract::links_once(g, base, s),
    ensures
        contract::links_once(g, base, linked_upto(s, repos, loads, signals, owners, n)),
        all_gradable(signals) && model::keeps(g, s.graph) ==> model::keeps(
            g,
            linked_upto(s, repos, loads, signals, owners, n).graph,
        ),
    decreases n,
{
    if n > 0 {
        lemma_linked(g, s, base, repos, loads, signals, owners, (n - 1) as nat);
        let t = linked_upto(s, repos, loads, signals, owners, (n - 1) as nat);
        if loads[n - 1] is Loaded {
            if all_gradable(signals) {
                assert(contract::signals_gradable(signals[n - 1]@));
            }
            contract::lemma_consumers(
                g,
                base,
                t,
                repos[n - 1].name@,
                signals[n - 1]@,
                owners,
                signals[n - 1]@.len(),
            );
        }
    }
}

proof fn lemma_consumes_upto(edges: Seq<EdgeView>, n: nat, i: int)
    requires
        0 <= i < n <= edges.len(),
        edges[i].kind == EdgeKind::Consumes,
    ensures
        consumes_upto(edges, n).contains((edges[i].src, edges[i].dst)),
    decreases n,
{
    let rest = consumes_upto(edges, (n - 1) as nat);
    let all = consumes_upto(edges, n);
    let pair = (edges[i].src, edges[i].dst);
    if i < n - 1 {
        lemma_consumes_upto(edges, (n - 1) as nat, i);
        let k = choose|k: int| 0 <= k < rest.len() && rest[k] == pair;
        assert(all[k] == pair);
    } else {
        assert(all[rest.len() as int] == pair);
    }
}

proof fn lemma_estate(
    estate: Seq<char>,
    repos: Seq<RepoEntry>,
    loads: Seq<RepoLoad>,
    signals: Seq<Vec<FileSignals>>,
)
    requires
        loads.len() == signals.len(),
    ensures
        ({
            let set = canonical_upto(estate, repos, loads, loads.len());
            let m = merged(estate, loads, set);
            let base = consumes_in(m.graph);
            let s = LinkState { graph: m.graph, linked: base };
            let e = linked_upto(s, repos, loads, signals, canonical_owners(estate, set.ops), loads.len());
            &&& merging(estate, set.ops, m)
            &&& contract::links_once(m.graph, base, e)
            &&& e.graph == linked_estate(estate, repos, loads, signals)
            &&& loads_sound(loads) && all_gradable(signals) ==> model::sound(e.graph)
        }),
{
    let set = canonical_upto(estate, repos, loads, loads.len());
    lemma_canonical_nodes(estate, set.ops, set.ops.len());
    let start = MergeState { graph: canonical_graph(estate, set), seen: Seq::empty() };
    lemma_merged(estate, set.ops, start, loads, set.moves, loads.len());
    let m = merged(estate, loads, set);
    let base = consumes_in(m.graph);
    let s = LinkState { graph: m.graph, linked: base };
    lemma_linked(m.graph, s, base, repos, loads, signals, canonical_owners(estate, set.ops), loads.len());
}

/// The graph of an estate is sound where those of its repositories are and every match has a grade.
pub proof fn law_estate_sound(
    estate: Seq<char>,
    repos: Seq<RepoEntry>,
    loads: Seq<RepoLoad>,
    signals: Seq<Vec<FileSignals>>,
)
    requires
        loads.len() == signals.len(),
        loads_sound(loads),
        all_gradable(signals),
    ensures
        model::sound(linked_estate(estate, repos, loads, signals)),
{
    lemma_estate(estate, repos, loads, signals);
}

/// Whatever the repositories hold: every operation in the graph of an estate is one of the estate,
/// and never that of one repository alone; and no two edges share their ends and their kind.
pub proof fn law_estate_apart(
    estate: Seq<char>,
    repos: Seq<RepoEntry>,
    loads: Seq<RepoLoad>,
    signals: Seq<Vec<FileSignals>>,
)
    requires
        loads.len() == signals.len(),
    ensures
        only_canonical(
            estate,
            canonical_upto(estate, repos, loads, loads.len()).ops,
            linked_estate(estate, repos, loads, signals),
        ),
        edges_apart(linked_estate(estate, repos, loads, signals)),
{
    lemma_estate(estate, repos, loads, signals);
    let set = canonical_upto(estate, repos, loads, loads.len());
    let m = merged(estate, loads, set);
    let g = m.graph;
    let base = consumes_in(g);
    let s = LinkState { graph: g, linked: base };
    let e = linked_upto(s, repos, loads, signals, canonical_owners(estate, set.ops), loads.len());
    let h = e.graph;
    assert(h == linked_estate(estate, repos, loads, signals));
    assert forall|i: int, j: int| 0 <= i < j < h.edges.len() implies !marked(
        #[trigger] h.edges[i],
        ((#[trigger] h.edges[j]).src, h.edges[j].dst, h.edges[j].kind),
    ) by {
        let b = base.len();
        let x = h.edges[i];
        let y = h.edges[j];
        if j < g.edges.len() {
            assert(h.edges[i] == g.edges[i] && h.edges[j] == g.edges[j]);
            assert(marked(g.edges[i], m.seen[i]));
            assert(marked(g.edges[j], m.seen[j]));
        } else {
            let q = b + j - g.edges.len();
            assert(contract::links_pair(h, h.edges[g.edges.len() + q - b], e.linked[q]));
            if i >= g.edges.len() {
                let p = b + i - g.edges.len();
                assert(contract::links_pair(h, h.edges[g.edges.len() + p - b], e.linked[p]));
                assert(e.linked[p] != e.linked[q]);
            } else if marked(x, (y.src, y.dst, y.kind)) {
                assert(h.edges[i] == g.edges[i]);
                assert(h.has(h.edges[j].dst));
                lemma_same_nodes(g, h);
                model::law_outgoing(g);
                let out = model::outgoing(g);
                assert(out.contains(g.edges[i]));
                let k = choose|k: int| 0 <= k < out.len() && out[k] == g.edges[i];
                lemma_consumes_upto(out, out.len(), k);
                let w = choose|w: int| 0 <= w < base.len() && base[w] == (x.src, x.dst);
                assert(e.linked[w] == base[w]);
                assert(e.linked[w] != e.linked[q]);
            }
        }
    }
}

proof fn lemma_same_nodes(g: GraphView, h: GraphView)
    requires
        g.nodes == h.nodes,
    ensures
        forall|u: Seq<char>| #[trigger] g.has(u) == h.has(u),
{
}

/// The consumers of an estate are counted once each, by how they were learned.
pub proof fn law_estate_counts_balance(g: GraphView, loads: Seq<RepoLoad>, signals: Seq<Vec<FileSignals>>)
    ensures
        ({
            let c = estate_counts(g, loads, signals);
            c.consumers == c.extracted + c.inferred + c.ambiguous
        }),
{
    let edges = model::outgoing(g);
    lemma_count_edges(edges, edges.len());
    lemma_count_repos(count_edges(edges, edges.len()), loads, signals, loads.len());
}

/// Whether two counts agree in what they say of edges.
pub open spec fn same_edges(c: LinkCounts, d: LinkCounts) -> bool {
    &&& c.producers == d.producers
    &&& c.consumers == d.consumers
    &&& c.extracted == d.extracted
    &&& c.inferred == d.inferred
    &&& c.ambiguous == d.ambiguous
}

proof fn lemma_count_edges(edges: Seq<EdgeView>, n: nat)
    ensures
        count_edges(edges, n).consumers == count_edges(edges, n).extracted + count_edges(edges, n).inferred
            + count_edges(edges, n).ambiguous,
    decreases n,
{
    if n > 0 {
        lemma_count_edges(edges, (n - 1) as nat);
    }
}

proof fn lemma_count_http(c: LinkCounts, http: Seq<CallSignal>, n: nat)
    ensures
        same_edges(c, count_http(c, http, n)),
    decreases n,
{
    if n > 0 {
        lemma_count_http(c, http, (n - 1) as nat);
    }
}

proof fn lemma_count_docs(c: LinkCounts, docs: Seq<DocSignal>, n: nat)
    ensures
        same_edges(c, count_docs(c, docs, n)),
    decreases n,
{
    if n > 0 {
        lemma_count_docs(c, docs, (n - 1) as nat);
    }
}

proof fn lemma_count_files(c: LinkCounts, files: Seq<FileSignals>, n: nat)
    ensures
        same_edges(c, count_files(c, files, n)),
    decreases n,
{
    if n > 0 {
        lemma_count_files(c, files, (n - 1) as nat);
        let d = count_files(c, files, (n - 1) as nat);
        let f = files[n - 1];
        lemma_count_http(d, f.http@, f.http@.len());
        lemma_count_docs(count_http(d, f.http@, f.http@.len()), f.docs@, f.docs@.len());
    }
}

proof fn lemma_count_repos(c: LinkCounts, loads: Seq<RepoLoad>, signals: Seq<Vec<FileSignals>>, n: nat)
    ensures
        same_edges(c, count_repos(c, loads, signals, n)),
    decreases n,
{
    if n > 0 {
        lemma_count_repos(c, loads, signals, (n - 1) as nat);
        let d = count_repos(c, loads, signals, (n - 1) as nat);
        if loads[n - 1] is Loaded {
            lemma_count_files(d, signals[n - 1]@, signals[n - 1]@.len());
        }
    }
}

} // verus!
