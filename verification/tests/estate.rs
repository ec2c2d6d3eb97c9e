use strata_index::contract::{
    canonical_operation_uid, operation_uid, CallSignal, ConsumerLink, ContractFormat, DocReading, DocSignal,
    FileSignals, OperationDef,
};
use strata_index::estate::{
    estate_options, index_estate, load_estate, load_results, union_into, RepoLoad, RepoOutcome,
};
use strata_index::estate_link::{canonical_operations, compute_coverage, link_estate};
use strata_index::estate_marker::{marker_temp_name, ESTATE_MARKER};
use strata_index::index::IndexStats;
use strata_index::manifest::{ApiDecl, RepoEntry, WorkspaceManifest, WorkspaceMeta};
use strata_index::model::{Confidence, Edge, EdgeKind, Graph, Node, NodeKind, Provenance, Span, Uid};
use strata_index::resolve_mode::ResolveMode;

fn node(uid: &Uid, kind: NodeKind, name: &str) -> Node {
    Node {
        uid: uid.clone(),
        kind,
        name: name.into(),
        fqn: name.into(),
        path: "p".into(),
        span: Span::default(),
        provenance: Provenance::Extracted,
        confidence: Confidence::new(1_000_000_000),
    }
}

fn edge(src: &Uid, dst: &Uid, kind: EdgeKind, provenance: Provenance, confidence: u32) -> Edge {
    Edge { src: src.clone(), dst: dst.clone(), kind, provenance, confidence: Confidence::new(confidence) }
}

fn op(key: &str) -> OperationDef {
    OperationDef {
        format: ContractFormat::OpenApi,
        method: "GET".into(),
        path: "/u".into(),
        norm_path: "/u".into(),
        operation_id: None,
        key: key.into(),
        spec_path: "openapi.yaml".into(),
    }
}

fn repo(name: &str, api: Option<&str>) -> RepoEntry {
    RepoEntry {
        name: name.into(),
        path: format!("../{name}"),
        apis: api.map(|id| vec![ApiDecl { id: id.into(), spec: "openapi.yaml".into() }]).unwrap_or_default(),
    }
}

fn manifest(repos: Vec<RepoEntry>) -> WorkspaceManifest {
    WorkspaceManifest::checked(WorkspaceMeta { name: "est".into() }, repos).unwrap()
}

/// A repository with a handler that produces an operation of its own.
fn backend(name: &str) -> (Graph, Vec<OperationDef>) {
    let o = op("GET /u");
    let handler = Uid::new("ts", name, "src/a.ts", "h", "");
    let local = operation_uid(name, &o);
    let mut g = Graph::new();
    g.add_node(node(&handler, NodeKind::Function, "h"));
    g.add_node(node(&local, NodeKind::ApiOperation, "GET /u"));
    g.add_edge(edge(&handler, &local, EdgeKind::Produces, Provenance::Inferred, 800_000_000));
    (g, vec![o])
}

fn frontend(name: &str) -> Graph {
    let mut g = Graph::new();
    g.add_node(node(&Uid::new("ts", name, "src/c.ts", "load", ""), NodeKind::Function, "load"));
    g
}

fn signals(links: Vec<ConsumerLink>) -> Vec<FileSignals> {
    vec![FileSignals {
        path: "src/c.ts".into(),
        http: vec![CallSignal { enclosing_fqn: "load".into(), links }],
        calls: vec![],
        docs: vec![DocSignal {
            enclosing_fqn: "".into(),
            interpolation_free: true,
            tagged: true,
            reading: DocReading::Unparsed,
        }],
    }]
}

fn link() -> ConsumerLink {
    ConsumerLink {
        op_key: "GET /u".into(),
        format: ContractFormat::OpenApi,
        provenance: Provenance::Inferred,
        confidence: 700_000_000,
    }
}

fn loaded(pair: (Graph, Vec<OperationDef>)) -> RepoLoad {
    RepoLoad::Loaded { graph: pair.0, operations: pair.1 }
}

#[test]
fn a_consumer_is_linked_across_repositories() {
    let m = manifest(vec![repo("back", None), repo("front", None)]);
    let loads = vec![loaded(backend("back")), loaded((frontend("front"), vec![]))];
    let (g, cov, results) = link_estate(&m, &loads, &vec![vec![], signals(vec![link()])]);
    let shared = canonical_operation_uid("est", "back", ContractFormat::OpenApi, "GET /u");
    let consumer = Uid::new("ts", "front", "src/c.ts", "load", "");
    let consumes: Vec<&Edge> = g.edges.iter().filter(|e| e.kind == EdgeKind::Consumes).collect();
    assert_eq!(consumes.len(), 1);
    assert_eq!((&consumes[0].src, &consumes[0].dst), (&consumer, &shared));
    assert_eq!(consumes[0].provenance, Provenance::Inferred);
    let produces: Vec<&Edge> = g.edges.iter().filter(|e| e.kind == EdgeKind::Produces).collect();
    assert_eq!(produces.len(), 1);
    assert_eq!(produces[0].dst, shared);
    assert!(!g.has_node(&operation_uid("back", &op("GET /u"))), "no operation of one repository alone");
    assert_eq!((cov.producers_total, cov.consumers_total, cov.consumers_ambiguous), (1, 1, 0));
    assert_eq!((cov.by_tier.extracted, cov.by_tier.inferred, cov.by_tier.ambiguous), (0, 1, 0));
    assert_eq!((cov.unmatched_consumers, cov.unparsed_documents), (0, 1));
    assert!(results.iter().all(|r| r.ok));
}

#[test]
fn apis_are_apart_unless_they_are_declared_to_be_one() {
    let loads = || vec![loaded(backend("a")), loaded(backend("b"))];
    let apart = canonical_operations(&manifest(vec![repo("a", None), repo("b", None)]), &loads());
    assert_eq!(apart.ops.len(), 2);
    let shared = canonical_operations(&manifest(vec![repo("a", Some("user")), repo("b", Some("user"))]), &loads());
    assert_eq!(shared.ops.len(), 1);
    assert_eq!(shared.ops[0].api_id, "user");
    assert_eq!(shared.moves.len(), 2);
}

#[test]
fn a_key_of_several_apis_is_ambiguous() {
    let m = manifest(vec![repo("a", None), repo("b", None), repo("front", None)]);
    let loads =
        vec![loaded(backend("a")), loaded(backend("b")), loaded((frontend("front"), vec![]))];
    let (g, cov, _) = link_estate(&m, &loads, &vec![vec![], vec![], signals(vec![link()])]);
    let consumes: Vec<&Edge> = g.edges.iter().filter(|e| e.kind == EdgeKind::Consumes).collect();
    assert_eq!(consumes.len(), 2);
    assert!(consumes
        .iter()
        .all(|e| e.provenance == Provenance::Ambiguous && e.confidence.billionths == 350_000_000));
    assert_eq!((cov.consumers_total, cov.consumers_ambiguous), (2, 2));
}

#[test]
fn shared_producers_are_not_doubled() {
    let m = manifest(vec![repo("a", Some("user")), repo("b", Some("user"))]);
    let (mut g, ops) = backend("a");
    let again = g.edges[0].clone();
    g.add_edge(again);
    let loads = vec![loaded((g, ops)), loaded(backend("b"))];
    let (g, cov, _) = link_estate(&m, &loads, &vec![vec![], vec![]]);
    assert_eq!(g.edges.iter().filter(|e| e.kind == EdgeKind::Produces).count(), 2);
    assert_eq!(cov.producers_total, 2);
    assert_eq!(compute_coverage(&g, &loads, &vec![vec![], vec![]]), cov);
}

#[test]
fn a_repository_that_fails_takes_no_other_with_it() {
    let m = manifest(vec![repo("a", None), repo("b", None), repo("c", None), repo("d", None)]);
    let mut stats = IndexStats::default();
    stats.nodes = 3;
    stats.edges = 2;
    let r = index_estate(
        &m,
        vec![
            RepoOutcome::NoPath("../a".into()),
            RepoOutcome::NoDirectory { path: "/x".into(), reason: "denied".into() },
            RepoOutcome::Failed("store error: locked".into()),
            RepoOutcome::Indexed(stats),
        ],
    );
    assert_eq!(r.estate, "est");
    assert_eq!((r.total_nodes, r.total_edges), (3, 2));
    let errors: Vec<Option<String>> = r.repos.iter().map(|x| x.error.clone()).collect();
    assert_eq!(
        errors,
        vec![
            Some("repo path does not exist: ../a".to_string()),
            Some("could not create /x: denied".to_string()),
            Some("store error: locked".to_string()),
            None
        ]
    );
    assert_eq!(r.repos.iter().map(|x| x.ok).collect::<Vec<_>>(), vec![false, false, false, true]);
}

#[test]
fn stores_that_open_are_united() {
    let m = manifest(vec![repo("a", None), repo("b", None), repo("c", None)]);
    let loads = vec![
        loaded(backend("a")),
        RepoLoad::NoStore("../b/.strata/graph.duckdb".into()),
        RepoLoad::Failed("bad".into()),
    ];
    let (g, results) = load_estate(&m, &loads);
    assert_eq!((g.node_count(), g.edge_count()), (2, 1));
    assert_eq!(
        results[1].error.as_deref(),
        Some("store not found at ../b/.strata/graph.duckdb; run `strata index` first")
    );
    assert_eq!(results[2].error.as_deref(), Some("bad"));
    let stats = load_results(&m, &loads)[0].stats.as_ref().map(|s| (s.nodes, s.edges));
    assert_eq!(stats, Some((2, 1)));
}

#[test]
fn a_union_keeps_nodes_once() {
    let (a, _) = backend("a");
    let mut g = Graph::new();
    union_into(&mut g, &a);
    union_into(&mut g, &a);
    assert_eq!((g.node_count(), g.edge_count()), (2, 2));
}

#[test]
fn estates_never_install_and_mark_their_members() {
    let o = estate_options(ResolveMode::On, true);
    assert!(!o.allow_install && o.include_vendored);
    assert_eq!(o.resolve_mode, ResolveMode::On);
    assert_eq!(marker_temp_name(9), format!("{ESTATE_MARKER}.9.tmp"));
}

#[test]
fn a_union_holds_every_node_and_edge_of_both() {
    let (a, _) = backend("a");
    let (b, _) = backend("b");
    let mut united = Graph::new();
    union_into(&mut united, &a);
    union_into(&mut united, &b);
    for g in [&a, &b] {
        for n in &g.nodes {
            assert_eq!(united.nodes.iter().filter(|m| m.uid == n.uid).count(), 1);
        }
        for e in &g.edges {
            assert!(united.edges.contains(e));
        }
    }
    assert_eq!(united.node_count(), 4);
    assert_eq!(united.edge_count(), 2);
}

#[test]
fn a_union_invents_nothing() {
    let (a, ops) = backend("a");
    let (b, _) = backend("b");
    let m = manifest(vec![repo("a", None), repo("b", None)]);
    let loads = vec![loaded((a, ops)), loaded((b, vec![]))];
    let (g, _) = load_estate(&m, &loads);
    let graphs: Vec<&Graph> = loads
        .iter()
        .map(|l| match l {
            RepoLoad::Loaded { graph, .. } => graph,
            _ => unreachable!(),
        })
        .collect();
    assert!(g.nodes.iter().all(|n| graphs.iter().any(|h| h.nodes.contains(n))));
    assert!(g.edges.iter().all(|e| graphs.iter().any(|h| h.edges.contains(e))));
}

#[test]
fn no_two_edges_of_an_estate_are_alike_whatever_is_loaded() {
    let o = op("GET /u");
    let handler = Uid::new("ts", "a", "src/a.ts", "h", "");
    let local = operation_uid("a", &o);
    let mut g = Graph::new();
    g.add_node(node(&handler, NodeKind::Function, "h"));
    g.add_node(node(&local, NodeKind::ApiOperation, "GET /u"));
    g.add_edge(edge(&handler, &local, EdgeKind::Produces, Provenance::Inferred, 800_000_000));
    g.add_edge(edge(&handler, &local, EdgeKind::Produces, Provenance::Extracted, 1));
    g.add_edge(edge(&handler, &local, EdgeKind::Produces, Provenance::Inferred, 800_000_000));
    let m = manifest(vec![repo("a", None), repo("front", None)]);
    let odd = || ConsumerLink { provenance: Provenance::Model, confidence: 3, ..link() };
    let loads = vec![loaded((g, vec![o])), loaded((frontend("front"), vec![]))];
    let (g, _, _) = link_estate(&m, &loads, &vec![vec![], signals(vec![odd(), link(), odd()])]);
    assert_eq!(g.edges.len(), 2);
    for (i, e) in g.edges.iter().enumerate() {
        for f in &g.edges[i + 1..] {
            assert!((&e.src, &e.dst, e.kind) != (&f.src, &f.dst, f.kind));
        }
    }
}
