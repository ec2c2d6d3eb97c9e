use strata_index::analysis::{
    AnalyzedFile, FileEntry, OrmModelHint, RawSymbol, RouteDecl, SourceText, SqlAccess, SqlCandidate, TableRef,
};
use strata_index::contract::{ContractFormat, OperationDef};
use strata_index::data::{ColumnDef, SchemaModel, TableDef};
use strata_index::estate_marker::EstateMarker;
use strata_index::hashing::{hash_files, FileHash};
use strata_index::index::{
    assemble_index, collect_code_orm, collect_code_sql, doc_analyze, files_to_parse, merge_analyses,
    keep_analyses, operation_documents, resolve_context, ContextFacts, IndexContext, IndexError, IndexInputs, ParseCacheEntry,
    PlaneAddition,
};
use strata_index::infra::{InfraTemplate, TerragruntUnit};
use strata_index::manifest::{RepoEntry, WorkspaceManifest, WorkspaceMeta};
use strata_index::model::{extracted_node, EdgeKind, NodeKind, Span, Uid};
use strata_index::readings::{SchemaSet, UnitSet};
use strata_index::resolve_mode::{ResolveMode, ScipError, ScipOutcome};
use strata_index::stamp::{IndexStamp, STAMP_FILE};

fn hash(path: &str, hash: &str) -> FileHash {
    FileHash { path: path.into(), hash: hash.into() }
}

fn analysis(mark: &str) -> AnalyzedFile {
    let mut f = AnalyzedFile::default();
    f.symbols = vec![RawSymbol {
        kind: NodeKind::Function,
        name: mark.into(),
        fqn: mark.into(),
        container_fqn: None,
        span: Span::default(),
    }];
    f
}

fn cached(path: &str, hash: &str, mark: &str) -> ParseCacheEntry {
    ParseCacheEntry { path: path.into(), hash: hash.into(), analyzed: analysis(mark) }
}

#[test]
fn only_what_changed_is_parsed() {
    let files = vec![hash("a", "1"), hash("b", "2"), hash("c", "3")];
    let cache = || vec![cached("b", "2", "b2"), cached("c", "old", "c-old"), cached("gone", "9", "gone")];
    assert_eq!(files_to_parse(&files, &cache()), vec![0, 2]);
    let merged = merge_analyses(&files, cache(), vec![analysis("a1"), analysis("c3")]);
    assert_eq!((merged.parsed, merged.reused), (2, 1));
    let marks: Vec<(&str, &str)> =
        merged.files.iter().map(|f| (f.path.as_str(), f.file.symbols[0].name.as_str())).collect();
    assert_eq!(marks, vec![("a", "a1"), ("b", "b2"), ("c", "c3")]);
}

#[test]
fn an_incremental_run_gives_what_a_full_run_gives() {
    let files = vec![hash("a", "1"), hash("b", "2")];
    let full = merge_analyses(&files, vec![], vec![analysis("a:1"), analysis("b:2")]);
    assert_eq!(full.parsed, 2);
    let warm = merge_analyses(&files, vec![cached("b", "2", "b:2"), cached("a", "1", "a:1")], vec![]);
    assert_eq!(warm.reused, 2);
    assert_eq!(full.files, warm.files);
    let half = merge_analyses(&files, vec![cached("a", "1", "a:1")], vec![analysis("b:2")]);
    assert_eq!(full.files, half.files);
}

#[test]
fn documents_are_analysed_as_one_tagged_document() {
    let f = doc_analyze("query { user }");
    assert_eq!(f.gql_documents.len(), 1);
    assert_eq!(f.gql_documents[0].text, "query { user }");
    assert!(f.gql_documents[0].interpolation_free && f.gql_documents[0].tagged);
    assert!(f.symbols.is_empty() && f.sql_candidates.is_empty());
    let docs = vec![
        SourceText { path: "s.graphql".into(), text: "type Query".into() },
        SourceText { path: "q.graphql".into(), text: "query".into() },
    ];
    let kept = operation_documents(docs, &vec![true, false]);
    assert_eq!(kept.len(), 1);
    assert_eq!(kept[0].path, "q.graphql");
}

fn entry(path: &str, file: AnalyzedFile) -> FileEntry {
    FileEntry { path: path.into(), file }
}

fn empty_inputs() -> IndexInputs {
    IndexInputs {
        ts: vec![],
        documents: vec![],
        py: vec![],
        cs: vec![],
        rust: vec![],
        sources: vec![],
        planes: vec![],
        operations: vec![],
        signals: vec![],
        cloudformation: vec![],
        terraform: vec![],
        template_diagnostics: vec![],
        units: UnitSet { units: vec![], diagnostics: vec![] },
        schemas: SchemaSet { schemas: vec![], diagnostics: vec![] },
    }
}

fn sql(table: &str, access: SqlAccess, enclosing: &str) -> SqlCandidate {
    SqlCandidate {
        text: format!("sql {table}"),
        refs: vec![TableRef { table: table.into(), access }],
        enclosing_fqn: enclosing.into(),
    }
}

#[test]
fn all_planes_are_built_in_one_graph() {
    let mut api = analysis("list");
    api.routes = vec![RouteDecl {
        method: "GET".into(),
        path: "/u".into(),
        norm_path: "/u".into(),
        handler_name: Some("list".into()),
        enclosing_fqn: "".into(),
    }];
    api.sql_candidates = vec![sql("users", SqlAccess::Read, "list")];
    let mut models = AnalyzedFile::default();
    models.orm_models = vec![OrmModelHint { model_fqn: "User".into(), table_name: "users".into() }];
    models.sql_candidates = vec![sql("users", SqlAccess::Write, "")];
    let class = Uid::new("py", "app", "models.py", "User", "");
    let module = Uid::new("py", "app", "models.py", "<module>", "");
    let mut x = empty_inputs();
    x.ts = vec![entry("src/z.ts", api)];
    x.documents = vec![entry("q.graphql", doc_analyze("query"))];
    x.py = vec![entry("models.py", models)];
    x.planes = vec![PlaneAddition {
        nodes: vec![
            extracted_node(class.clone(), NodeKind::Class, "User", "User", "models.py", Span::default()),
            extracted_node(module.clone(), NodeKind::Module, "models.py", "<module>", "models.py", Span::default()),
        ],
        edges: vec![],
    }];
    x.operations = vec![OperationDef {
        format: ContractFormat::OpenApi,
        method: "GET".into(),
        path: "/u".into(),
        norm_path: "/u".into(),
        operation_id: None,
        key: "GET /u".into(),
        spec_path: "openapi.yaml".into(),
    }];
    x.cloudformation = vec![InfraTemplate { path: "t.yaml".into(), resources: vec![] }];
    x.template_diagnostics = vec!["bad.yaml: parse error: x".into()];
    x.units = UnitSet {
        units: vec![TerragruntUnit { path: "live/terragrunt.hcl".into(), dependencies: vec![] }],
        diagnostics: vec!["u: y".into()],
    };
    x.schemas = SchemaSet {
        schemas: vec![SchemaModel {
            path: "s.sql".into(),
            tables: vec![TableDef {
                name: "users".into(),
                columns: vec![ColumnDef {
                    name: "id".into(),
                    sql_type: "INT".into(),
                    nullable: false,
                    primary_key: true,
                }],
                foreign_keys: vec![],
            }],
            skipped_statements: 0,
        }],
        diagnostics: vec![],
    };
    let scip = ScipOutcome { resolver: None, degraded: true };
    let r = assemble_index("app", x, &scip, ResolveMode::Auto, 2, 1);
    let s = &r.stats;
    assert_eq!((s.files_indexed, s.files_parsed, s.files_reused), (3, 2, 1));
    assert_eq!((s.nodes, s.edges), (r.graph.node_count(), r.graph.edge_count()));
    assert!(s.degraded);
    assert_eq!(s.resolution_mode, ResolveMode::Auto);
    assert_eq!((s.infra_link.templates_detected, s.infra_link.templates_failed), (1, 1));
    assert_eq!(s.infra_diagnostics, vec!["bad.yaml: parse error: x".to_string(), "u: y".to_string()]);
    assert_eq!(s.terragrunt.units_detected, 1);
    assert_eq!((s.data_link.reads_linked, s.data_link.writes_linked, s.data_link.orm_models_linked), (1, 1, 1));
    let paths: Vec<&str> = r.files.iter().map(|f| f.path.as_str()).collect();
    assert_eq!(paths, vec!["models.py", "q.graphql", "src/z.ts"]);
    let kinds: Vec<EdgeKind> = r.graph.edges.iter().map(|e| e.kind).collect();
    for k in [EdgeKind::Produces, EdgeKind::Reads, EdgeKind::Writes, EdgeKind::MapsTo, EdgeKind::HasColumn] {
        assert!(kinds.contains(&k), "{k:?} missing in {kinds:?}");
    }
    let writes = r.graph.edges.iter().find(|e| e.kind == EdgeKind::Writes).unwrap();
    assert_eq!(writes.src, module);
}

#[test]
fn sql_and_models_are_collected_by_language() {
    let with = |t: &str| {
        let mut f = AnalyzedFile::default();
        f.sql_candidates = vec![sql(t, SqlAccess::Read, "")];
        f.orm_models = vec![OrmModelHint { model_fqn: t.into(), table_name: t.into() }];
        f
    };
    let files = vec![
        entry("a.rs", with("r")),
        entry("b.ts", with("t")),
        entry("c.ts", AnalyzedFile::default()),
        entry("d.py", with("p")),
    ];
    let tags = vec!["rust", "ts", "ts", "py"];
    let found: Vec<(&str, &str)> = collect_code_sql(&files, &tags).iter().map(|f| (f.lang, f.path)).collect();
    assert_eq!(found, vec![("ts", "b.ts"), ("py", "d.py"), ("rust", "a.rs")]);
    let found: Vec<(&str, &str)> = collect_code_orm(&files, &tags).iter().map(|f| (f.lang, f.path)).collect();
    assert_eq!(found, vec![("ts", "b.ts"), ("py", "d.py"), ("rust", "a.rs")]);
}

fn facts() -> ContextFacts {
    ContextFacts {
        db: "/r/.strata/graph.duckdb".into(),
        resolved_root: Some("/real/r".into()),
        marker: Some(EstateMarker { manifest: "/e/m.toml".into(), estate: "est".into(), repo: "me".into() }),
        manifest: Some(
            WorkspaceManifest::checked(
                WorkspaceMeta { name: "est".into() },
                vec![
                    RepoEntry { name: "other".into(), path: "o".into(), apis: vec![] },
                    RepoEntry { name: "me".into(), path: "r".into(), apis: vec![] },
                ],
            )
            .unwrap(),
        ),
        manifest_has_dir: true,
        member_roots: vec![Some("/real/o".into()), Some("/real/r".into())],
    }
}

#[test]
fn a_member_that_the_manifest_lists_is_in_its_estate() {
    assert_eq!(
        resolve_context(facts()),
        IndexContext::Estate { manifest: "/e/m.toml".into(), repo: "me".into(), repo_root: "/real/r".into() }
    );
}

#[test]
fn whatever_is_missing_leaves_a_repository_on_its_own() {
    let single = || IndexContext::Single { db: "/r/.strata/graph.duckdb".into() };
    assert_eq!(resolve_context(ContextFacts { marker: None, ..facts() }), single());
    assert_eq!(resolve_context(ContextFacts { manifest: None, ..facts() }), single());
    assert_eq!(resolve_context(ContextFacts { manifest_has_dir: false, ..facts() }), single());
    let moved = ContextFacts { member_roots: vec![Some("/real/r".into()), Some("/elsewhere".into())], ..facts() };
    assert_eq!(resolve_context(moved), single());
    let unresolved = ContextFacts { resolved_root: None, member_roots: vec![None, None], ..facts() };
    assert_eq!(resolve_context(unresolved), single());
}

#[test]
fn a_rerun_over_unchanged_files_parses_nothing() {
    let files = vec![hash("a", "1"), hash("b", "2")];
    let full = merge_analyses(&files, vec![], vec![analysis("a:1"), analysis("b:2")]);
    let cache = keep_analyses(&files, full.files);
    assert_eq!(cache, vec![cached("a", "1", "a:1"), cached("b", "2", "b:2")]);
    assert!(files_to_parse(&files, &cache).is_empty());
    assert_eq!(files_to_parse(&vec![hash("a", "1"), hash("b", "3")], &cache), vec![1]);
    let unknown = FileEntry { path: "c".into(), file: analysis("c") };
    assert!(keep_analyses(&files, vec![unknown]).is_empty());
}

#[test]
fn index_errors_say_what_is_wrong() {
    assert_eq!(
        IndexError::Io { path: "/p".into(), reason: "denied".into() }.message(),
        "io error at /p: denied"
    );
    assert_eq!(IndexError::Store("locked".into()).message(), "store error: locked");
    assert!(IndexError::Scip(ScipError::Failed("x".into()))
        .message()
        .starts_with("precise resolution required but failed: "));
}

#[test]
fn a_stamp_is_written_under_a_name_of_its_own() {
    let s = IndexStamp::new("engine", 7, 3, 2);
    assert_eq!((s.nodes, s.edges, s.indexed_at_nanos), (3, 2, 7));
    assert_eq!(s.temp_name(5), format!(".{STAMP_FILE}.tmp.5.7"));
    assert_ne!(s.temp_name(5), IndexStamp::new("engine", 8, 3, 2).temp_name(5));
    assert_ne!(s.temp_name(5), s.temp_name(57));
}

#[test]
fn a_changed_content_changes_its_hash() {
    let h = |t: &str| hash_files(&vec![SourceText { path: "a".into(), text: t.into() }])[0].hash.clone();
    assert_ne!(h("x"), h("y"));
    assert_eq!(h("x"), h("x"));
}
