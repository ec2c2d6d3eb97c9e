//! Estates: several repositories indexed, loaded and linked as one.
//!
//! Each repository is indexed on its own, under the name that the manifest gives it, so that its
//! identifiers are apart from those of every other. A repository that fails is recorded and left
//! out. Linking unites the graphs, replaces the operations of each repository by one node for each
//! API, format and key, and links consumers to operations across repositories.
use vstd::prelude::*;

use crate::contract::OperationDef;
use crate::index;
use crate::index::IndexStats;
use crate::manifest;
use crate::manifest::{RepoEntry, WorkspaceManifest};
use crate::model;
use crate::model::{EdgeView, Graph, GraphView, NodeView};
use crate::resolve_mode::{IndexOptions, ResolveMode};
use crate::text;

verus! {

/// What became of a repository.
#[derive(Debug, PartialEq, Eq)]
pub struct RepoIndexResult {
    pub name: String,
    pub ok: bool,
    pub stats: Option<IndexStats>,
    pub error: Option<String>,
}

/// What became of an estate.
#[derive(Debug, PartialEq, Eq)]
pub struct EstateStats {
    pub estate: String,
    pub repos: Vec<RepoIndexResult>,
    pub total_nodes: usize,
    pub total_edges: usize,
}

/// Whether a result records this failure of a repository.
pub open spec fn records_failure(r: RepoIndexResult, repo: RepoEntry, error: Seq<char>) -> bool {
    r.name@ == repo.name@ && !r.ok && r.stats is None && text::opt_view(r.error) == Some(error)
}

fn failure(repo: &RepoEntry, error: String) -> (r: RepoIndexResult)
    ensures
        records_failure(r, *repo, error@),
{
    RepoIndexResult { name: repo.name.clone(), ok: false, stats: None, error: Some(error) }
}

// ----------------------------------------------------------------------------------------------
// Indexing
// ----------------------------------------------------------------------------------------------

/// What came of indexing a repository.
#[derive(Debug, PartialEq, Eq)]
pub enum RepoOutcome {
    /// There is nothing at this path.
    NoPath(String),
    /// The directory of the store could not be made.
    NoDirectory { path: String, reason: String },
    /// Opening the store or indexing failed.
    Failed(String),
    Indexed(IndexStats),
}

/// The options under which the repositories of an estate are indexed. Nothing is ever installed.
pub fn estate_options(mode: ResolveMode, include_vendored: bool) -> (r: IndexOptions)
    ensures
        r.resolve_mode == mode,
        !r.allow_install,
        r.include_vendored == include_vendored,
{
    IndexOptions { resolve_mode: mode, allow_install: false, include_vendored }
}

/// Whether a result records what came of indexing a repository.
pub open spec fn records_outcome(r: RepoIndexResult, repo: RepoEntry, outcome: RepoOutcome) -> bool {
    match outcome {
        RepoOutcome::NoPath(path) => records_failure(r, repo, "repo path does not exist: "@ + path@),
        RepoOutcome::NoDirectory { path, reason } => records_failure(
            r,
            repo,
            "could not create "@ + path@ + ": "@ + reason@,
        ),
        RepoOutcome::Failed(reason) => records_failure(r, repo, reason@),
        RepoOutcome::Indexed(stats) => r.name@ == repo.name@ && r.ok && r.stats == Some(stats) && r.error is None,
    }
}

/// The nodes of the first `n` repositories, over those that were indexed.
pub open spec fn nodes_upto(outcomes: Seq<RepoOutcome>, n: nat) -> nat
    decreases n,
{
    if n == 0 {
        0
    } else {
        nodes_upto(outcomes, (n - 1) as nat) + match outcomes[n - 1] {
            RepoOutcome::Indexed(stats) => stats.nodes as nat,
            _ => 0,
        }
    }
}

/// The edges of the first `n` repositories, over those that were indexed.
pub open spec fn edges_upto(outcomes: Seq<RepoOutcome>, n: nat) -> nat
    decreases n,
{
    if n == 0 {
        0
    } else {
        edges_upto(outcomes, (n - 1) as nat) + match outcomes[n - 1] {
            RepoOutcome::Indexed(stats) => stats.edges as nat,
            _ => 0,
        }
    }
}

/// Records what came of indexing each repository of an estate, in the order of the manifest. A
/// failure takes no other repository with it.
pub fn index_estate(manifest: &WorkspaceManifest, outcomes: Vec<RepoOutcome>) -> (r: EstateStats)
    requires
        outcomes@.len() == manifest.repos@.len(),
    ensures
        r.estate@ == manifest.workspace.name@,
        r.repos@.len() == manifest.repos@.len(),
        forall|i: int|
            0 <= i < r.repos@.len() ==> records_outcome(#[trigger] r.repos@[i], manifest.repos@[i], outcomes@[i]),
        r.total_nodes == model::cap(nodes_upto(outcomes@, outcomes@.len())),
        r.total_edges == model::cap(edges_upto(outcomes@, outcomes@.len())),
{
    let ghost all = outcomes@;
    let mut left = outcomes;
    let mut repos: Vec<RepoIndexResult> = Vec::new();
    let mut total_nodes: usize = 0;
    let mut total_edges: usize = 0;
    let mut i: usize = 0;
    while i < manifest.repos.len()
        invariant
            i <= manifest.repos@.len(),
            all.len() == manifest.repos@.len(),
            left@ == all.skip(i as int),
            repos@.len() == i,
            forall|j: int| 0 <= j < i ==> records_outcome(#[trigger] repos@[j], manifest.repos@[j], all[j]),
            total_nodes == model::cap(nodes_upto(all, i as nat)),
            total_edges == model::cap(edges_upto(all, i as nat)),
        decreases manifest.repos@.len() - i,
    {
        let repo = &manifest.repos[i];
        let outcome = left.remove(0);
        assert(outcome == all[i as int]);
        assert(left@ =~= all.skip(i + 1));
        match outcome {
            RepoOutcome::NoPath(path) => {
                repos.push(failure(repo, text::concat2("repo path does not exist: ", path.as_str())));
            },
            RepoOutcome::NoDirectory { path, reason } => {
                let mut error = text::concat3("could not create ", path.as_str(), ": ");
                error.append(reason.as_str());
                repos.push(failure(repo, error));
            },
            RepoOutcome::Failed(reason) => {
                repos.push(failure(repo, reason));
            },
            RepoOutcome::Indexed(stats) => {
                total_nodes = model::plus(total_nodes, stats.nodes);
                total_edges = model::plus(total_edges, stats.edges);
                repos.push(RepoIndexResult { name: repo.name.clone(), ok: true, stats: Some(stats), error: None });
            },
        }
        i = i + 1;
    }
    EstateStats { estate: manifest.workspace.name.clone(), repos, total_nodes, total_edges }
}

// ----------------------------------------------------------------------------------------------
// Loading
// ----------------------------------------------------------------------------------------------

/// What came of opening the store of a repository.
#[derive(Debug, PartialEq, Eq)]
pub enum RepoLoad {
    /// There is no store at this path.
    NoStore(String),
    /// Opening or reading the store failed.
    Failed(String),
    /// The graph of the repository, and the operations that its specifications define.
    Loaded { graph: Graph, operations: Vec<OperationDef> },
}

/// Whether a result records what came of opening a store.
pub open spec fn records_load(r: RepoIndexResult, repo: RepoEntry, load: RepoLoad) -> bool {
    match load {
        RepoLoad::NoStore(path) => records_failure(
            r,
            repo,
            "store not found at "@ + path@ + "; run `strata index` first"@,
        ),
        RepoLoad::Failed(reason) => records_failure(r, repo, reason@),
        RepoLoad::Loaded { graph, .. } => {
            &&& r.name@ == repo.name@
            &&& r.ok
            &&& r.error is None
            &&& r.stats matches Some(stats) && index::counts_only(
                stats,
                model::cap(graph@.nodes.len()),
                model::cap(graph@.edges.len()),
            )
        },
    }
}

fn load_result(repo: &RepoEntry, load: &RepoLoad) -> (r: RepoIndexResult)
    ensures
        records_load(r, *repo, *load),
{
    match load {
        RepoLoad::NoStore(path) => failure(
            repo,
            text::concat3("store not found at ", path.as_str(), "; run `strata index` first"),
        ),
        RepoLoad::Failed(reason) => failure(repo, reason.clone()),
        RepoLoad::Loaded { graph, .. } => {
            let mut stats = IndexStats::default();
            stats.nodes = graph.node_count();
            stats.edges = graph.edge_count();
            RepoIndexResult { name: repo.name.clone(), ok: true, stats: Some(stats), error: None }
        },
    }
}

/// Records what came of opening the store of each repository.
pub fn load_results(manifest: &WorkspaceManifest, loads: &Vec<RepoLoad>) -> (r: Vec<RepoIndexResult>)
    requires
        loads@.len() == manifest.repos@.len(),
    ensures
        r@.len() == manifest.repos@.len(),
        forall|i: int| 0 <= i < r@.len() ==> records_load(#[trigger] r@[i], manifest.repos@[i], loads@[i]),
{
    let mut results: Vec<RepoIndexResult> = Vec::new();
    let mut i: usize = 0;
    while i < manifest.repos.len()
        invariant
            i <= manifest.repos@.len(),
            loads@.len() == manifest.repos@.len(),
            results@.len() == i,
            forall|j: int| 0 <= j < i ==> records_load(#[trigger] results@[j], manifest.repos@[j], loads@[j]),
        decreases manifest.repos@.len() - i,
    {
        results.push(load_result(&manifest.repos[i], &loads[i]));
        i = i + 1;
    }
    results
}

/// A graph united with another: its nodes, and its edges between nodes by the node that they lead
/// from.
pub open spec fn united(g: GraphView, other: GraphView) -> GraphView {
    model::with_all(g, other.nodes, model::outgoing(other))
}

/// Adds the nodes and edges of a graph to another.
pub fn union_into(dst: &mut Graph, src: &Graph)
    ensures
        final(dst)@ == united(old(dst)@, src@),
{
    let edges = src.outgoing_edges();
    dst.add_all(&src.nodes, &edges);
}

/// The graphs of the first `n` repositories that loaded, united.
pub open spec fn union_upto(loads: Seq<RepoLoad>, n: nat) -> GraphView
    decreases n,
{
    if n == 0 {
        GraphView::empty()
    } else {
        let rest = union_upto(loads, (n - 1) as nat);
        match loads[n - 1] {
            RepoLoad::Loaded { graph, .. } => united(rest, graph@),
            _ => rest,
        }
    }
}

/// Unites the graphs of the repositories that loaded, in the order of the manifest, and records
/// what came of each.
pub fn load_estate(manifest: &WorkspaceManifest, loads: &Vec<RepoLoad>) -> (r: (Graph, Vec<RepoIndexResult>))
    requires
        loads@.len() == manifest.repos@.len(),
    ensures
        r.0@ == union_upto(loads@, loads@.len()),
        r.1@.len() == manifest.repos@.len(),
        forall|i: int| 0 <= i < r.1@.len() ==> records_load(#[trigger] r.1@[i], manifest.repos@[i], loads@[i]),
{
    let results = load_results(manifest, loads);
    let mut estate = Graph::new();
    let mut i: usize = 0;
    while i < loads.len()
        invariant
            i <= loads@.len(),
            estate@ == union_upto(loads@, i as nat),
        decreases loads@.len() - i,
    {
        match &loads[i] {
            RepoLoad::Loaded { graph, .. } => {
                union_into(&mut estate, graph);
            },
            _ => {},
        }
        i = i + 1;
    }
    (estate, results)
}

/// Uniting with a graph keeps what was there, adds every node of the other and every edge between
/// its nodes, and stays sound where both are.
pub proof fn law_united(g: GraphView, other: GraphView)
    ensures
        model::extends(g, united(g, other)),
        forall|u: Seq<char>| #[trigger] other.has(u) ==> united(g, other).has(u),
        forall|j: int|
            0 <= j < other.edges.len() && other.has((#[trigger] other.edges[j]).src) && other.has(other.edges[j].dst)
                ==> united(g, other).edges.contains(other.edges[j]),
        model::sound(g) && model::sound(other) ==> model::sound(united(g, other)),
{
    let edges = model::outgoing(other);
    let m = model::with_nodes(g, other.nodes, other.nodes.len());
    let h = united(g, other);
    model::law_outgoing(other);
    model::lemma_keeps_nodes(g, other.nodes, other.nodes.len());
    assert forall|u: Seq<char>| #[trigger] m.has(u) implies h.has(u) by {
        let i = choose|i: int| 0 <= i < m.nodes.len() && (#[trigger] m.nodes[i]).uid == u;
        assert(h.nodes[i].uid == u);
    }
    assert forall|u: Seq<char>| #[trigger] other.has(u) implies h.has(u) by {
        let i = choose|i: int| 0 <= i < other.nodes.len() && (#[trigger] other.nodes[i]).uid == u;
        model::lemma_with_nodes_has(g, other.nodes, other.nodes.len(), i);
    }
    assert forall|j: int|
        0 <= j < other.edges.len() && other.has((#[trigger] other.edges[j]).src) && other.has(other.edges[j].dst) implies h.edges.contains(
        other.edges[j],
    ) by {
        let k = choose|k: int| 0 <= k < edges.len() && edges[k] == other.edges[j];
        assert(h.edges[m.edges.len() + k] == other.edges[j]);
    }
    if model::sound(g) && model::sound(other) {
        assert forall|i: int| 0 <= i < edges.len() implies model::in_band(
            (#[trigger] edges[i]).provenance,
            edges[i].confidence,
        ) by {
            let j = choose|j: int| 0 <= j < other.edges.len() && other.edges[j] == edges[i];
            assert(model::in_band(other.edges[j].provenance, other.edges[j].confidence));
        }
        model::lemma_keeps_all(g, other.nodes, edges);
    }
}

/// The united graphs of an estate are sound where each is, and hold every node of each repository
/// that loaded.
pub proof fn law_union_sound(loads: Seq<RepoLoad>, n: nat)
    requires
        n <= loads.len(),
        forall|i: int|
            0 <= i < n ==> ((#[trigger] loads[i]) matches RepoLoad::Loaded { graph, .. } ==> model::sound(graph@)),
    ensures
        model::sound(union_upto(loads, n)),
        forall|i: int, u: Seq<char>|
            0 <= i < n && holds_node(#[trigger] loads[i], u) ==> #[trigger] union_upto(loads, n).has(u),
    decreases n,
{
    if n > 0 {
        law_union_sound(loads, (n - 1) as nat);
        let rest = union_upto(loads, (n - 1) as nat);
        let all = union_upto(loads, n);
        match loads[n - 1] {
            RepoLoad::Loaded { graph, .. } => {
                law_united(rest, graph@);
            },
            _ => {},
        }
        assert forall|i: int, u: Seq<char>|
            0 <= i < n && holds_node(#[trigger] loads[i], u) implies #[trigger] all.has(u) by {
            if i < n - 1 {
                assert(rest.has(u));
            }
        }
    }
}

/// Whether a repository loaded with a graph that has exactly this node.
pub open spec fn gives_node(load: RepoLoad, x: NodeView) -> bool {
    match load {
        RepoLoad::Loaded { graph, .. } => graph@.nodes.contains(x),
        _ => false,
    }
}

/// Whether a repository loaded with a graph that has exactly this edge.
pub open spec fn gives_edge(load: RepoLoad, e: EdgeView) -> bool {
    match load {
        RepoLoad::Loaded { graph, .. } => graph@.edges.contains(e),
        _ => false,
    }
}

proof fn lemma_node_given(g: GraphView, nodes: Seq<NodeView>, n: nat, i: int)
    requires
        n <= nodes.len(),
        0 <= i < model::with_nodes(g, nodes, n).nodes.len(),
    ensures
        g.nodes.contains(model::with_nodes(g, nodes, n).nodes[i]) || nodes.contains(
            model::with_nodes(g, nodes, n).nodes[i],
        ),
    decreases n,
{
    let h = model::with_nodes(g, nodes, n);
    if n == 0 {
        assert(g.nodes[i] == h.nodes[i]);
    } else {
        let m = model::with_nodes(g, nodes, (n - 1) as nat);
        if i < m.nodes.len() && h.nodes[i] == m.nodes[i] {
            lemma_node_given(g, nodes, (n - 1) as nat, i);
        } else {
            assert(h.nodes[i] == nodes[n - 1]);
        }
    }
}

/// The union invents nothing: every node and every edge of it is one of a repository that loaded,
/// as it stands there.
pub proof fn law_union_invents_nothing(loads: Seq<RepoLoad>, n: nat)
    requires
        n <= loads.len(),
    ensures
        forall|i: int|
            0 <= i < union_upto(loads, n).nodes.len() ==> exists|k: int|
                0 <= k < n && gives_node(#[trigger] loads[k], #[trigger] union_upto(loads, n).nodes[i]),
        forall|i: int|
            0 <= i < union_upto(loads, n).edges.len() ==> exists|k: int|
                0 <= k < n && gives_edge(#[trigger] loads[k], #[trigger] union_upto(loads, n).edges[i]),
    decreases n,
{
    if n > 0 {
        law_union_invents_nothing(loads, (n - 1) as nat);
        let rest = union_upto(loads, (n - 1) as nat);
        let all = union_upto(loads, n);
        assert forall|i: int| 0 <= i < all.nodes.len() implies exists|k: int|
            0 <= k < n && gives_node(#[trigger] loads[k], #[trigger] all.nodes[i]) by {
            let x = all.nodes[i];
            match loads[n - 1] {
                RepoLoad::Loaded { graph, .. } => {
                    lemma_node_given(rest, graph@.nodes, graph@.nodes.len(), i);
                },
                _ => {
                    assert(rest.nodes.contains(x));
                },
            }
            if rest.nodes.contains(x) {
                let j = choose|j: int| 0 <= j < rest.nodes.len() && rest.nodes[j] == x;
                let k = choose|k: int| 0 <= k < n - 1 && gives_node(#[trigger] loads[k], rest.nodes[j]);
                assert(gives_node(loads[k], x));
            } else {
                assert(gives_node(loads[n - 1], x));
            }
        }
        assert forall|i: int| 0 <= i < all.edges.len() implies exists|k: int|
            0 <= k < n && gives_edge(#[trigger] loads[k], #[trigger] all.edges[i]) by {
            let e = all.edges[i];
            if i < rest.edges.len() {
                match loads[n - 1] {
                    RepoLoad::Loaded { graph, .. } => law_united(rest, graph@),
                    _ => {},
                }
                assert(rest.edges[i] == e);
                let k = choose|k: int| 0 <= k < n - 1 && gives_edge(#[trigger] loads[k], rest.edges[i]);
                assert(gives_edge(loads[k], e));
            } else {
                match loads[n - 1] {
                    RepoLoad::Loaded { graph, .. } => {
                        let out = model::outgoing(graph@);
                        model::law_outgoing(graph@);
                        model::lemma_with_nodes_edges(rest, graph@.nodes, graph@.nodes.len());
                        assert(out.contains(out[i - rest.edges.len()]));
                        assert(e == out[i - rest.edges.len()]);
                        assert(gives_edge(loads[n - 1], e));
                    },
                    _ => {},
                }
            }
        }
    }
}

/// Whether a repository loaded with a graph that has a node of this identifier.
pub open spec fn holds_node(load: RepoLoad, uid: Seq<char>) -> bool {
    match load {
        RepoLoad::Loaded { graph, .. } => graph@.has(uid),
        _ => false,
    }
}

} // verus!
