use strata_index::analysis::{OrmModelHint, SqlAccess, SqlCandidate, TableRef};
use strata_index::data::{
    assemble_graph_with_data, build_data_plane, code_node_uid, column_uid, resolve_ref_column, resolve_table,
    table_uid, CodeOrmFile, CodeSqlFile, ColumnDef, ForeignKey, SchemaModel, TableDef, CONF_DATA_FACT,
    CONF_ORM_EXPLICIT,
};
use strata_index::model::{
    Confidence, Direction, EdgeKind, Graph, Neighbor, Node, NodeKind, Provenance, Span, Uid,
};

const FLOOR: u32 = 950_000_000;

fn schema(path: &str, tables: Vec<TableDef>) -> SchemaModel {
    SchemaModel { path: path.into(), tables, skipped_statements: 0 }
}

fn col(name: &str, ty: &str, nullable: bool, pk: bool) -> ColumnDef {
    ColumnDef { name: name.into(), sql_type: ty.into(), nullable, primary_key: pk }
}

fn fk(column: &str, ref_table: &str, ref_column: &str) -> ForeignKey {
    ForeignKey { column: column.into(), ref_table: ref_table.into(), ref_column: ref_column.into() }
}

fn two_table_schema() -> Vec<SchemaModel> {
    vec![schema(
        "schema.sql",
        vec![
            TableDef {
                name: "orgs".into(),
                columns: vec![col("id", "BIGINT", false, true), col("name", "TEXT", false, false)],
                foreign_keys: vec![],
            },
            TableDef {
                name: "accounts".into(),
                columns: vec![col("id", "BIGINT", false, true), col("org_id", "BIGINT", false, false)],
                foreign_keys: vec![fk("org_id", "orgs", "id")],
            },
        ],
    )]
}

fn out(g: &Graph, uid: &Uid, kind: EdgeKind) -> Vec<Neighbor> {
    g.neighbors(uid, Direction::Outgoing, &vec![kind])
}

fn cand(text: &str, refs: &[(&str, SqlAccess)], enclosing: &str) -> SqlCandidate {
    SqlCandidate {
        text: text.into(),
        refs: refs.iter().map(|(t, a)| TableRef { table: t.to_string(), access: *a }).collect(),
        enclosing_fqn: enclosing.into(),
    }
}

fn seed(g: &mut Graph, kind: NodeKind, lang: &str, repo: &str, path: &str, fqn: &str) -> Uid {
    let uid = Uid::new(lang, repo, path, fqn, "");
    g.add_node(Node {
        uid: uid.clone(),
        kind,
        name: fqn.to_string(),
        fqn: fqn.to_string(),
        path: path.to_string(),
        span: Span::default(),
        provenance: Provenance::Extracted,
        confidence: Confidence::new(1_000_000_000),
    });
    uid
}

fn seed_code_node(g: &mut Graph, lang: &str, repo: &str, path: &str, fqn: &str) -> Uid {
    let kind = if fqn == "<module>" { NodeKind::Module } else { NodeKind::Function };
    seed(g, kind, lang, repo, path, fqn)
}

fn seed_class_node(g: &mut Graph, lang: &str, repo: &str, path: &str, fqn: &str) -> Uid {
    seed(g, NodeKind::Class, lang, repo, path, fqn)
}

fn orm_hint(model_fqn: &str, table_name: &str) -> OrmModelHint {
    OrmModelHint { model_fqn: model_fqn.into(), table_name: table_name.into() }
}

#[test]
fn builds_table_and_column_nodes() {
    let (g, cov) = assemble_graph_with_data("app", &two_table_schema());
    assert_eq!(cov.tables_total, 2);
    assert_eq!(cov.columns_total, 4);
    let kinds_of = |fqn: &str| {
        g.nodes
            .iter()
            .find(|n| n.fqn == fqn)
            .map(|n| n.kind)
            .unwrap_or_else(|| panic!("node {fqn} not found"))
    };
    assert_eq!(kinds_of("orgs"), NodeKind::Table);
    assert_eq!(kinds_of("accounts"), NodeKind::Table);
    assert_eq!(kinds_of("orgs.id"), NodeKind::Column);
    assert_eq!(kinds_of("accounts.org_id"), NodeKind::Column);
}

#[test]
fn table_has_column_edges_are_extracted() {
    let (g, _cov) = assemble_graph_with_data("app", &two_table_schema());
    let orgs = table_uid("app", "schema.sql", "orgs");
    let found = out(&g, &orgs, EdgeKind::HasColumn);
    let cols: Vec<&str> = found.iter().map(|n| n.node.name.as_str()).collect();
    assert!(cols.contains(&"id"));
    assert!(cols.contains(&"name"));
    for n in &found {
        assert_eq!(n.edge.provenance, Provenance::Extracted);
        assert!(n.edge.confidence.billionths >= FLOOR);
    }
}

#[test]
fn foreign_key_edge_links_column_to_referenced_column() {
    let (g, cov) = assemble_graph_with_data("app", &two_table_schema());
    assert_eq!(cov.fks_total, 1);
    assert_eq!(cov.fks_linked, 1);
    assert_eq!(cov.fks_unresolved, 0);
    let src = column_uid("app", "schema.sql", "accounts", "org_id");
    let found = out(&g, &src, EdgeKind::ForeignKey);
    let targets: Vec<&str> = found.iter().map(|n| n.node.fqn.as_str()).collect();
    assert_eq!(targets, vec!["orgs.id"], "FK edge points at the referenced column");
}

#[test]
fn foreign_key_to_undeclared_table_is_unresolved_no_edge() {
    let schemas = vec![schema(
        "schema.sql",
        vec![TableDef {
            name: "accounts".into(),
            columns: vec![col("id", "BIGINT", false, true), col("ext_id", "BIGINT", true, false)],
            foreign_keys: vec![fk("ext_id", "external_table", "id")],
        }],
    )];
    let (g, cov) = assemble_graph_with_data("app", &schemas);
    assert_eq!(cov.fks_total, 1);
    assert_eq!(cov.fks_linked, 0);
    assert_eq!(cov.fks_unresolved, 1, "an FK to an undeclared table is unresolved");
    let src = column_uid("app", "schema.sql", "accounts", "ext_id");
    assert!(out(&g, &src, EdgeKind::ForeignKey).is_empty(), "no edge is invented for an unresolved FK");
}

#[test]
fn cross_file_foreign_key_resolves_across_schemas() {
    let schemas = vec![
        schema(
            "001_orgs.sql",
            vec![TableDef {
                name: "orgs".into(),
                columns: vec![col("id", "BIGINT", false, true)],
                foreign_keys: vec![],
            }],
        ),
        schema(
            "002_accounts.sql",
            vec![TableDef {
                name: "accounts".into(),
                columns: vec![col("org_id", "BIGINT", false, false)],
                foreign_keys: vec![fk("org_id", "orgs", "id")],
            }],
        ),
    ];
    let (g, cov) = assemble_graph_with_data("app", &schemas);
    assert_eq!(cov.fks_linked, 1, "the FK resolves to the orgs table in the other file");
    let src = column_uid("app", "002_accounts.sql", "accounts", "org_id");
    let dst = column_uid("app", "001_orgs.sql", "orgs", "id");
    let targets: Vec<Uid> =
        out(&g, &src, EdgeKind::ForeignKey).into_iter().map(|n| n.node.uid.clone()).collect();
    assert_eq!(targets, vec![dst]);
}

#[test]
fn nodes_are_idempotent_by_uid() {
    let schemas = two_table_schema();
    let mut g = Graph::new();
    let cov1 = build_data_plane(&mut g, "app", &schemas, &vec![], &vec![]);
    let n1 = g.node_count();
    let cov2 = build_data_plane(&mut g, "app", &schemas, &vec![], &vec![]);
    assert_eq!(g.node_count(), n1, "nodes are idempotent by UID");
    assert_eq!(cov1, cov2, "coverage is a pure function of the input");
}

#[test]
fn code_select_links_reads_edge_to_declared_table_extracted() {
    let schemas = two_table_schema();
    let mut g = Graph::new();
    let fn_uid = seed_code_node(&mut g, "ts", "app", "src/a.ts", "loadOrg");
    let candidates =
        vec![cand("SELECT name FROM orgs WHERE id = 1", &[("orgs", SqlAccess::Read)], "loadOrg")];
    let code = vec![CodeSqlFile { lang: "ts", path: "src/a.ts", candidates: &candidates }];
    let cov = build_data_plane(&mut g, "app", &schemas, &code, &vec![]);

    assert_eq!(cov.reads_linked, 1);
    assert_eq!(cov.reads_unresolved, 0);
    assert_eq!(cov.writes_linked, 0);

    let targets = out(&g, &fn_uid, EdgeKind::Reads);
    assert_eq!(targets.len(), 1);
    assert_eq!(targets[0].node.name, "orgs");
    assert_eq!(targets[0].edge.provenance, Provenance::Extracted);
    assert!(targets[0].edge.confidence.billionths >= FLOOR);
}

#[test]
fn code_insert_and_update_link_writes_edges() {
    let schemas = two_table_schema();
    let mut g = Graph::new();
    let ins = seed_code_node(&mut g, "py", "app", "app.py", "create_account");
    let candidates = vec![cand(
        "INSERT INTO accounts (id) VALUES (1)",
        &[("accounts", SqlAccess::Write)],
        "create_account",
    )];
    let code = vec![CodeSqlFile { lang: "py", path: "app.py", candidates: &candidates }];
    let cov = build_data_plane(&mut g, "app", &schemas, &code, &vec![]);
    assert_eq!(cov.writes_linked, 1);
    assert_eq!(cov.reads_linked, 0);
    let found = out(&g, &ins, EdgeKind::Writes);
    let writes: Vec<&str> = found.iter().map(|n| n.node.name.as_str()).collect();
    assert_eq!(writes, vec!["accounts"], "INSERT INTO accounts is a Write");
}

#[test]
fn code_sql_to_undeclared_table_is_unresolved_no_edge() {
    let schemas = two_table_schema();
    let mut g = Graph::new();
    let fn_uid = seed_code_node(&mut g, "ts", "app", "src/a.ts", "f");
    let candidates =
        vec![cand("SELECT * FROM legacy_widgets", &[("legacy_widgets", SqlAccess::Read)], "f")];
    let code = vec![CodeSqlFile { lang: "ts", path: "src/a.ts", candidates: &candidates }];
    let cov = build_data_plane(&mut g, "app", &schemas, &code, &vec![]);
    assert_eq!(cov.reads_linked, 0);
    assert_eq!(cov.reads_unresolved, 1, "a read of an undeclared table is unresolved");
    assert!(
        out(&g, &fn_uid, EdgeKind::Reads).is_empty(),
        "no Reads edge is invented for an undeclared table"
    );
}

#[test]
fn code_sql_falls_back_to_module_when_no_enclosing_symbol() {
    let schemas = two_table_schema();
    let mut g = Graph::new();
    let module = seed_code_node(&mut g, "ts", "app", "src/a.ts", "<module>");
    let candidates = vec![cand("SELECT id FROM orgs", &[("orgs", SqlAccess::Read)], "")];
    let code = vec![CodeSqlFile { lang: "ts", path: "src/a.ts", candidates: &candidates }];
    let cov = build_data_plane(&mut g, "app", &schemas, &code, &vec![]);
    assert_eq!(cov.reads_linked, 1);
    let found = out(&g, &module, EdgeKind::Reads);
    let reads: Vec<&str> = found.iter().map(|n| n.node.name.as_str()).collect();
    assert_eq!(reads, vec!["orgs"], "a top-level read attributes to the module");
}

#[test]
fn orm_model_links_mapsto_edge_to_declared_table_extracted() {
    let schemas = two_table_schema();
    let mut g = Graph::new();
    let user = seed_class_node(&mut g, "py", "app", "models.py", "User");
    let hints = vec![orm_hint("User", "orgs")];
    let orm = vec![CodeOrmFile { lang: "py", path: "models.py", hints: &hints }];
    let cov = build_data_plane(&mut g, "app", &schemas, &vec![], &orm);

    assert_eq!(cov.orm_models_total, 1);
    assert_eq!(cov.orm_models_linked, 1);
    assert_eq!(cov.orm_models_unresolved, 0);

    let targets = out(&g, &user, EdgeKind::MapsTo);
    assert_eq!(targets.len(), 1, "one MapsTo edge");
    assert_eq!(targets[0].node.name, "orgs");
    assert_eq!(targets[0].edge.provenance, Provenance::Extracted);
    assert!(targets[0].edge.confidence.billionths >= FLOOR, "Extracted band floor");
}

#[test]
fn orm_model_to_undeclared_table_is_unresolved_no_edge() {
    let schemas = two_table_schema();
    let mut g = Graph::new();
    let user = seed_class_node(&mut g, "py", "app", "models.py", "Widget");
    let hints = vec![orm_hint("Widget", "legacy_widgets")];
    let orm = vec![CodeOrmFile { lang: "py", path: "models.py", hints: &hints }];
    let cov = build_data_plane(&mut g, "app", &schemas, &vec![], &orm);
    assert_eq!(cov.orm_models_total, 1);
    assert_eq!(cov.orm_models_linked, 0);
    assert_eq!(cov.orm_models_unresolved, 1, "an ORM model naming an undeclared table is unresolved");
    assert!(
        out(&g, &user, EdgeKind::MapsTo).is_empty(),
        "no MapsTo edge is invented for an undeclared table"
    );
}

#[test]
fn orm_model_with_absent_class_node_is_unresolved_no_module_fallback() {
    let schemas = two_table_schema();
    let mut g = Graph::new();
    let module = seed_code_node(&mut g, "py", "app", "models.py", "<module>");
    let hints = vec![orm_hint("User", "orgs")];
    let orm = vec![CodeOrmFile { lang: "py", path: "models.py", hints: &hints }];
    let cov = build_data_plane(&mut g, "app", &schemas, &vec![], &orm);
    assert_eq!(cov.orm_models_linked, 0);
    assert_eq!(
        cov.orm_models_unresolved, 1,
        "an absent model class node is unresolved (no module fallback)"
    );
    assert!(
        out(&g, &module, EdgeKind::MapsTo).is_empty(),
        "a class hint never attaches a MapsTo edge to the module"
    );
}

#[test]
fn orm_mapsto_is_idempotent_by_uid() {
    let schemas = two_table_schema();
    let mut g = Graph::new();
    seed_class_node(&mut g, "py", "app", "models.py", "User");
    let hints = vec![orm_hint("User", "orgs")];
    let orm = vec![CodeOrmFile { lang: "py", path: "models.py", hints: &hints }];
    let cov1 = build_data_plane(&mut g, "app", &schemas, &vec![], &orm);
    let n1 = g.node_count();
    let cov2 = build_data_plane(&mut g, "app", &schemas, &vec![], &orm);
    assert_eq!(g.node_count(), n1, "nodes idempotent by uid");
    assert_eq!(cov1, cov2, "coverage is a pure function of the input");
}

#[test]
fn data_identifiers_and_grades_are_fixed() {
    assert_eq!(table_uid("app", "s.sql", "orgs").as_str(), "data|app|s.sql|orgs|");
    assert_eq!(column_uid("app", "s.sql", "orgs", "id").as_str(), "data|app|s.sql|orgs.id|");
    assert_eq!((CONF_DATA_FACT, CONF_ORM_EXPLICIT), (950_000_000, 950_000_000));
    let schemas = two_table_schema();
    assert_eq!(resolve_table("app", &schemas, "orgs"), Some(table_uid("app", "schema.sql", "orgs")));
    assert_eq!(resolve_table("app", &schemas, "none"), None);
    assert_eq!(
        resolve_ref_column("app", &schemas, "orgs", "name"),
        Some(column_uid("app", "schema.sql", "orgs", "name"))
    );
    assert_eq!(resolve_ref_column("app", &schemas, "orgs", "none"), None);
    let g = Graph::new();
    assert_eq!(code_node_uid(&g, "ts", "app", "a.ts", "gone").as_str(), "ts|app|a.ts|<module>|");
}

#[test]
fn the_data_plane_adds_nothing_without_schemas() {
    let mut g = Graph::new();
    seed_code_node(&mut g, "ts", "app", "src/a.ts", "f");
    let candidates = vec![cand("SELECT 1 FROM t", &[("t", SqlAccess::Read), ("u", SqlAccess::Write)], "f")];
    let code = vec![CodeSqlFile { lang: "ts", path: "src/a.ts", candidates: &candidates }];
    let cov = build_data_plane(&mut g, "app", &vec![], &code, &vec![]);
    assert_eq!((g.node_count(), g.edge_count()), (1, 0));
    assert_eq!((cov.reads_unresolved, cov.writes_unresolved), (1, 1));
    assert_eq!(cov.schemas_detected, 0);
}

#[test]
fn skipped_statements_are_summed() {
    let mut schemas = two_table_schema();
    schemas[0].skipped_statements = 3;
    schemas.push(SchemaModel { path: "b.sql".into(), tables: vec![], skipped_statements: 4 });
    let (_, cov) = assemble_graph_with_data("app", &schemas);
    assert_eq!(cov.statements_skipped, 7);
    assert_eq!(cov.schemas_detected, 2);
    assert_eq!(cov.schemas_failed, 0);
}

#[test]
fn nothing_escapes_the_counts_of_the_data_plane() {
    let mut schemas = two_table_schema();
    schemas[0].tables[0].foreign_keys.push(fk("name", "gone", "id"));
    let candidates = vec![
        cand("SELECT 1", &[("orgs", SqlAccess::Read), ("gone", SqlAccess::Read)], "f"),
        cand("UPDATE accounts", &[("accounts", SqlAccess::Write)], "f"),
    ];
    let code = vec![CodeSqlFile { lang: "ts", path: "src/a.ts", candidates: &candidates }];
    let hints = vec![OrmModelHint { model_fqn: "Org".into(), table_name: "orgs".into() }];
    let orm = vec![CodeOrmFile { lang: "ts", path: "src/a.ts", hints: &hints }];
    let mut g = Graph::new();
    let cov = build_data_plane(&mut g, "app", &schemas, &code, &orm);
    assert_eq!((cov.tables_total, cov.columns_total), (2, 4));
    assert_eq!((cov.fks_total, cov.fks_linked, cov.fks_unresolved), (2, 1, 1));
    assert_eq!(cov.reads_linked + cov.reads_unresolved, 2);
    assert_eq!(cov.writes_linked + cov.writes_unresolved, 1);
    assert_eq!((cov.orm_models_total, cov.orm_models_linked, cov.orm_models_unresolved), (1, 0, 1));
}
