use strata_index::analysis::{AnalyzedFile, FileEntry, RawSymbol, ResolverEntry, RouteDecl};
use strata_index::contract::{
    assemble_graph_with_contracts, canonical_operation_uid, grade_consumer, local_key_to_uid, node_kind_for,
    operation_name_of, operation_uid, CallSignal, ConsumerLink, ContractFormat, DocReading, DocSignal, FileSignals,
    OperationDef, AMBIGUOUS_CEILING, CONF_PRODUCES_MULTI, CONF_PRODUCES_PATH_ONLY, CONF_PRODUCES_SINGLE,
    CONSUMES_AMBIGUOUS_FANOUT, CONSUMES_EXTRACTED_FLOOR, CONSUMES_INFERRED_CEILING,
};
use strata_index::model::{Edge, EdgeKind, Graph, NodeKind, Provenance, Span};

fn op(method: &str, path: &str, key: &str, spec: &str) -> OperationDef {
    OperationDef {
        format: ContractFormat::OpenApi,
        method: method.into(),
        path: path.into(),
        norm_path: path.into(),
        operation_id: None,
        key: key.into(),
        spec_path: spec.into(),
    }
}

fn gql(key: &str) -> OperationDef {
    OperationDef { format: ContractFormat::Graphql, ..op("Query", "s", key, "schema.graphql") }
}

fn handler(name: &str) -> RawSymbol {
    RawSymbol {
        kind: NodeKind::Function,
        name: name.into(),
        fqn: name.into(),
        container_fqn: None,
        span: Span::default(),
    }
}

fn route(method: &str, path: &str, handler_name: Option<&str>) -> RouteDecl {
    RouteDecl {
        method: method.into(),
        path: path.into(),
        norm_path: path.into(),
        handler_name: handler_name.map(|h| h.to_string()),
        enclosing_fqn: "".into(),
    }
}

fn file(path: &str, symbols: Vec<RawSymbol>, routes: Vec<RouteDecl>) -> FileEntry {
    let mut f = AnalyzedFile::default();
    f.symbols = symbols;
    f.routes = routes;
    FileEntry { path: path.into(), file: f }
}

fn link(key: &str, format: ContractFormat, provenance: Provenance, confidence: u32) -> ConsumerLink {
    ConsumerLink { op_key: key.into(), format, provenance, confidence }
}

fn http(path: &str, enclosing: &str, links: Vec<ConsumerLink>) -> FileSignals {
    FileSignals {
        path: path.into(),
        http: vec![CallSignal { enclosing_fqn: enclosing.into(), links }],
        calls: vec![],
        docs: vec![],
    }
}

fn of(g: &Graph, kind: EdgeKind) -> Vec<&Edge> {
    g.edges.iter().filter(|e| e.kind == kind).collect()
}

#[test]
fn a_route_produces_the_one_operation_that_it_matches() {
    let ops = vec![op("GET", "/users", "GET /users", "openapi.yaml")];
    let files = vec![file("src/a.ts", vec![handler("list")], vec![route("GET", "/users", Some("list"))])];
    let g = assemble_graph_with_contracts(&files, "app", &ops, &vec![]);
    let produced = of(&g, EdgeKind::Produces);
    assert_eq!(produced.len(), 1);
    assert_eq!(produced[0].src.as_str(), "ts|app|src/a.ts|list|");
    assert_eq!(produced[0].dst, operation_uid("app", &ops[0]));
    assert_eq!(produced[0].provenance, Provenance::Inferred);
    assert_eq!(produced[0].confidence.billionths, CONF_PRODUCES_SINGLE);
}

#[test]
fn a_route_of_any_method_is_surer_of_its_path_than_of_its_method() {
    let ops = vec![op("GET", "/users", "GET /users", "openapi.yaml")];
    let files = vec![file("src/a.ts", vec![], vec![route("ANY", "/users", None)])];
    let g = assemble_graph_with_contracts(&files, "app", &ops, &vec![]);
    let produced = of(&g, EdgeKind::Produces);
    assert_eq!(produced[0].confidence.billionths, CONF_PRODUCES_PATH_ONLY);
    assert_eq!(produced[0].src.as_str(), "ts|app|src/a.ts|<module>|");
}

#[test]
fn a_route_that_matches_several_operations_is_ambiguous() {
    let ops = vec![op("GET", "/u", "GET /u", "a.yaml"), op("POST", "/u", "POST /u", "a.yaml")];
    let files = vec![file("src/a.ts", vec![], vec![route("ANY", "/u", None)])];
    let g = assemble_graph_with_contracts(&files, "app", &ops, &vec![]);
    let produced = of(&g, EdgeKind::Produces);
    assert_eq!(produced.len(), 2);
    assert!(produced
        .iter()
        .all(|e| e.provenance == Provenance::Ambiguous && e.confidence.billionths == CONF_PRODUCES_MULTI));
}

#[test]
fn a_resolver_produces_its_field() {
    let ops = vec![gql("Query.user")];
    let mut f = AnalyzedFile::default();
    f.resolver_entries = vec![ResolverEntry {
        op_type: "Query".into(),
        field: "user".into(),
        handler_name: None,
        enclosing_fqn: "".into(),
    }];
    let files = vec![FileEntry { path: "src/r.ts".into(), file: f }];
    let g = assemble_graph_with_contracts(&files, "app", &ops, &vec![]);
    assert_eq!(of(&g, EdgeKind::Produces).len(), 1);
    let node = g.get_node(&operation_uid("app", &ops[0])).unwrap();
    assert_eq!(node.kind, NodeKind::GraphqlField);
}

#[test]
fn a_consumer_is_linked_once() {
    let ops = vec![op("GET", "/u", "GET /u", "a.yaml")];
    let files = vec![file("src/c.ts", vec![handler("load")], vec![])];
    let l = || link("GET /u", ContractFormat::OpenApi, Provenance::Inferred, 900_000_000);
    let signals = vec![http("src/c.ts", "load", vec![l(), l()]), http("src/c.ts", "load", vec![l()])];
    let g = assemble_graph_with_contracts(&files, "app", &ops, &signals);
    let consumed = of(&g, EdgeKind::Consumes);
    assert_eq!(consumed.len(), 1);
    assert_eq!(consumed[0].confidence.billionths, CONSUMES_INFERRED_CEILING);
    assert_eq!(consumed[0].src.as_str(), "ts|app|src/c.ts|load|");
}

#[test]
fn a_consumer_that_is_no_node_is_not_linked() {
    let ops = vec![op("GET", "/u", "GET /u", "a.yaml")];
    let signals = vec![http(
        "src/gone.ts",
        "load",
        vec![link("GET /u", ContractFormat::OpenApi, Provenance::Extracted, 950_000_000)],
    )];
    let g = assemble_graph_with_contracts(&vec![], "app", &ops, &signals);
    assert!(of(&g, EdgeKind::Consumes).is_empty());
}

#[test]
fn a_document_consumes_its_root_fields() {
    let ops = vec![gql("Query.user")];
    let files = vec![file("src/c.ts", vec![], vec![])];
    let doc = |interpolation_free: bool| DocSignal {
        enclosing_fqn: "".into(),
        interpolation_free,
        tagged: true,
        reading: DocReading::Parsed {
            fields: vec![vec![link("Query.user", ContractFormat::Graphql, Provenance::Extracted, 1)]],
            unresolved_root_spreads: 0,
        },
    };
    let with = |d: DocSignal| {
        vec![FileSignals { path: "src/c.ts".into(), http: vec![], calls: vec![], docs: vec![d] }]
    };
    let g = assemble_graph_with_contracts(&files, "app", &ops, &with(doc(true)));
    let consumed = of(&g, EdgeKind::Consumes);
    assert_eq!(consumed.len(), 1);
    assert_eq!(consumed[0].confidence.billionths, CONSUMES_EXTRACTED_FLOOR);
    let skipped = assemble_graph_with_contracts(&files, "app", &ops, &with(doc(false)));
    assert!(of(&skipped, EdgeKind::Consumes).is_empty());
}

#[test]
fn grades_stay_in_their_bands() {
    let g = |p: Provenance, c: u32, fan: bool| grade_consumer(&link("k", ContractFormat::OpenApi, p, c), fan);
    assert_eq!(g(Provenance::Inferred, 990_000_000, false), (Provenance::Inferred, CONSUMES_INFERRED_CEILING));
    assert_eq!(g(Provenance::Extracted, 1, false), (Provenance::Extracted, CONSUMES_EXTRACTED_FLOOR));
    assert_eq!(g(Provenance::Ambiguous, 900_000_000, false), (Provenance::Ambiguous, AMBIGUOUS_CEILING));
    assert_eq!(
        g(Provenance::Extracted, 990_000_000, true),
        (Provenance::Ambiguous, CONSUMES_AMBIGUOUS_FANOUT)
    );
}

#[test]
fn operations_have_names_kinds_and_identifiers() {
    let o = op("GET", "/u", "GET /u", "a.yaml");
    assert_eq!(operation_name_of(&o), "GET /u");
    let named = OperationDef { operation_id: Some("listUsers".into()), ..o.clone() };
    assert_eq!(operation_name_of(&named), "listUsers");
    assert_eq!(operation_uid("app", &o).as_str(), "contract|app|a.yaml|GET /u|");
    assert_eq!(
        canonical_operation_uid("estate", "user", ContractFormat::Grpc, "k").as_str(),
        "contract|estate|user/grpc|k|"
    );
    assert_eq!(node_kind_for(ContractFormat::Grpc), NodeKind::ApiOperation);
    let owners = local_key_to_uid("app", &vec![o.clone(), OperationDef { spec_path: "b.yaml".into(), ..o }]);
    assert_eq!(owners.len(), 1);
    assert_eq!(owners[0].uid.as_str(), "contract|app|a.yaml|GET /u|");
}

#[test]
fn without_operations_nothing_is_added() {
    let files = vec![file("src/a.ts", vec![handler("h")], vec![route("GET", "/u", Some("h"))])];
    let plain = assemble_graph_with_contracts(&files, "app", &vec![], &vec![]);
    assert!(of(&plain, EdgeKind::Produces).is_empty() && of(&plain, EdgeKind::Consumes).is_empty());
}

#[test]
fn identifiers_tell_operations_apart_by_api_format_and_key() {
    let formats = [ContractFormat::OpenApi, ContractFormat::Graphql, ContractFormat::Grpc];
    let mut seen = Vec::new();
    for api in ["user", "user-2", "orders"] {
        for format in formats {
            for key in ["GET /u", "u|", "|u", "user/grpc|k"] {
                seen.push(canonical_operation_uid("estate", api, format, key));
            }
        }
    }
    for (i, a) in seen.iter().enumerate() {
        assert!(seen[i + 1..].iter().all(|b| a != b), "{a:?}");
    }
}
