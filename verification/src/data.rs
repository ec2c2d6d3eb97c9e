//! The data plane: tables, columns, foreign keys, and the code that touches tables.
//!
//! Every node and edge is a fact of a declaration or of a literal. A reference to a table or a
//! column that no schema declares gets no edge and is counted.
use vstd::prelude::*;

use crate::analysis::{OrmModelHint, SqlAccess, SqlCandidate};
use crate::model;
use crate::model::{Edge, EdgeKind, EdgeView, Graph, GraphView, NodeKind, NodeView, Provenance, Span, Uid};
use crate::text;

verus! {

/// The confidence of an edge that a schema declares or a SQL literal names.
pub const CONF_DATA_FACT: u32 = 950_000_000;

/// The confidence of an edge from a model class that names its table.
pub const CONF_ORM_EXPLICIT: u32 = 950_000_000;

/// A column of a table.
#[derive(Debug, PartialEq, Eq)]
pub struct ColumnDef {
    pub name: String,
    pub sql_type: String,
    pub nullable: bool,
    pub primary_key: bool,
}

/// A foreign key of a table.
#[derive(Debug, PartialEq, Eq)]
pub struct ForeignKey {
    pub column: String,
    pub ref_table: String,
    pub ref_column: String,
}

/// A table.
#[derive(Debug, PartialEq, Eq)]
pub struct TableDef {
    pub name: String,
    pub columns: Vec<ColumnDef>,
    pub foreign_keys: Vec<ForeignKey>,
}

/// What a schema file declares, and how many of its statements were skipped.
#[derive(Debug, PartialEq, Eq)]
pub struct SchemaModel {
    pub path: String,
    pub tables: Vec<TableDef>,
    pub skipped_statements: usize,
}

/// The SQL candidates of a code file, under the language tag of its nodes.
#[derive(Clone, Copy, Debug)]
pub struct CodeSqlFile<'a> {
    pub lang: &'a str,
    pub path: &'a str,
    pub candidates: &'a Vec<SqlCandidate>,
}

/// The value of a [`CodeSqlFile`].
#[verifier::ext_equal]
pub struct SqlFileView {
    pub lang: Seq<char>,
    pub path: Seq<char>,
    pub candidates: Seq<SqlCandidate>,
}

impl<'a> View for CodeSqlFile<'a> {
    type V = SqlFileView;

    open spec fn view(&self) -> SqlFileView {
        SqlFileView { lang: self.lang@, path: self.path@, candidates: self.candidates@ }
    }
}

/// The values of a list of files.
pub open spec fn sql_views(files: Seq<CodeSqlFile<'_>>) -> Seq<SqlFileView> {
    Seq::new(files.len(), |i: int| files[i]@)
}

/// The model classes of a code file, under the language tag of its nodes.
#[derive(Clone, Copy, Debug)]
pub struct CodeOrmFile<'a> {
    pub lang: &'a str,
    pub path: &'a str,
    pub hints: &'a Vec<OrmModelHint>,
}

/// The value of a [`CodeOrmFile`].
#[verifier::ext_equal]
pub struct OrmFileView {
    pub lang: Seq<char>,
    pub path: Seq<char>,
    pub hints: Seq<OrmModelHint>,
}

impl<'a> View for CodeOrmFile<'a> {
    type V = OrmFileView;

    open spec fn view(&self) -> OrmFileView {
        OrmFileView { lang: self.lang@, path: self.path@, hints: self.hints@ }
    }
}

/// The values of a list of files.
pub open spec fn orm_views(files: Seq<CodeOrmFile<'_>>) -> Seq<OrmFileView> {
    Seq::new(files.len(), |i: int| files[i]@)
}

/// How the data plane of a repository linked up.
#[derive(Clone, Copy, Debug, PartialEq, Eq, Structural)]
pub struct DataLinkCoverage {
    /// Schema files that declare a table.
    pub schemas_detected: usize,
    /// Schema files that could not be read. The indexer counts these.
    pub schemas_failed: usize,
    /// Statements that were skipped within files that were read.
    pub statements_skipped: usize,
    pub tables_total: usize,
    pub columns_total: usize,
    pub fks_total: usize,
    pub fks_linked: usize,
    pub fks_unresolved: usize,
    pub reads_linked: usize,
    pub reads_unresolved: usize,
    pub writes_linked: usize,
    pub writes_unresolved: usize,
    pub orm_models_total: usize,
    pub orm_models_linked: usize,
    pub orm_models_unresolved: usize,
}

/// The mathematical counts of a [`DataLinkCoverage`].
pub struct DataCounts {
    pub tables: nat,
    pub columns: nat,
    pub fks: nat,
    pub fks_linked: nat,
    pub fks_unresolved: nat,
    pub reads_linked: nat,
    pub reads_unresolved: nat,
    pub writes_linked: nat,
    pub writes_unresolved: nat,
    pub models: nat,
    pub models_linked: nat,
    pub models_unresolved: nat,
}

impl DataLinkCoverage {
    /// Whether these are the counts of `v`.
    pub open spec fn counts(self, v: DataCounts) -> bool {
        &&& self.tables_total == model::cap(v.tables)
        &&& self.columns_total == model::cap(v.columns)
        &&& self.fks_total == model::cap(v.fks)
        &&& self.fks_linked == model::cap(v.fks_linked)
        &&& self.fks_unresolved == model::cap(v.fks_unresolved)
        &&& self.reads_linked == model::cap(v.reads_linked)
        &&& self.reads_unresolved == model::cap(v.reads_unresolved)
        &&& self.writes_linked == model::cap(v.writes_linked)
        &&& self.writes_unresolved == model::cap(v.writes_unresolved)
        &&& self.orm_models_total == model::cap(v.models)
        &&& self.orm_models_linked == model::cap(v.models_linked)
        &&& self.orm_models_unresolved == model::cap(v.models_unresolved)
    }
}

impl DataCounts {
    /// Nothing counted.
    pub open spec fn zero() -> DataCounts {
        DataCounts {
            tables: 0,
            columns: 0,
            fks: 0,
            fks_linked: 0,
            fks_unresolved: 0,
            reads_linked: 0,
            reads_unresolved: 0,
            writes_linked: 0,
            writes_unresolved: 0,
            models: 0,
            models_linked: 0,
            models_unresolved: 0,
        }
    }

    /// Every foreign key and every model class is either linked or counted as unresolved.
    pub open spec fn balanced(self) -> bool {
        &&& self.fks == self.fks_linked + self.fks_unresolved
        &&& self.models == self.models_linked + self.models_unresolved
    }
}

impl Default for DataLinkCoverage {
    fn default() -> (r: DataLinkCoverage)
        ensures
            r.counts(DataCounts::zero()),
            r.schemas_detected == 0,
            r.schemas_failed == 0,
            r.statements_skipped == 0,
    {
        DataLinkCoverage {
            schemas_detected: 0,
            schemas_failed: 0,
            statements_skipped: 0,
            tables_total: 0,
            columns_total: 0,
            fks_total: 0,
            fks_linked: 0,
            fks_unresolved: 0,
            reads_linked: 0,
            reads_unresolved: 0,
            writes_linked: 0,
            writes_unresolved: 0,
            orm_models_total: 0,
            orm_models_linked: 0,
            orm_models_unresolved: 0,
        }
    }
}

/// A graph under construction and the counts so far.
pub struct DataState {
    pub graph: GraphView,
    pub counts: DataCounts,
}

// ----------------------------------------------------------------------------------------------
// Identifiers and nodes
// ----------------------------------------------------------------------------------------------

/// The identifier of a table.
pub open spec fn table_id(repo: Seq<char>, schema: Seq<char>, table: Seq<char>) -> Seq<char> {
    model::uid_text("data"@, repo, schema, table, ""@)
}

/// The qualified name of a column.
pub open spec fn column_fqn(table: Seq<char>, column: Seq<char>) -> Seq<char> {
    table + "."@ + column
}

/// The identifier of a column.
pub open spec fn column_id(repo: Seq<char>, schema: Seq<char>, table: Seq<char>, column: Seq<char>) -> Seq<char> {
    model::uid_text("data"@, repo, schema, column_fqn(table, column), ""@)
}

/// The node of a table.
pub open spec fn table_fact(repo: Seq<char>, schema: Seq<char>, table: Seq<char>) -> NodeView {
    model::fact_node(table_id(repo, schema, table), NodeKind::Table, table, table, schema, model::no_span())
}

/// The node of a column.
pub open spec fn column_fact(repo: Seq<char>, schema: Seq<char>, table: Seq<char>, column: Seq<char>) -> NodeView {
    model::fact_node(
        column_id(repo, schema, table, column),
        NodeKind::Column,
        column,
        column_fqn(table, column),
        schema,
        model::no_span(),
    )
}

/// The identifier of a table.
pub fn table_uid(repo_name: &str, schema_path: &str, table: &str) -> (r: Uid)
    ensures
        r@ == table_id(repo_name@, schema_path@, table@),
{
    Uid::new("data", repo_name, schema_path, table, "")
}

/// The identifier of a column.
pub fn column_uid(repo_name: &str, schema_path: &str, table: &str, column: &str) -> (r: Uid)
    ensures
        r@ == column_id(repo_name@, schema_path@, table@, column@),
{
    let fqn = text::concat3(table, ".", column);
    Uid::new("data", repo_name, schema_path, fqn.as_str(), "")
}

// ----------------------------------------------------------------------------------------------
// Nodes
// ----------------------------------------------------------------------------------------------

/// The state with the nodes of the first `n` columns of a table.
pub open spec fn with_columns(s: DataState, repo: Seq<char>, schema: Seq<char>, table: TableDef, n: nat) -> DataState
    decreases n,
{
    if n == 0 {
        s
    } else {
        let t = with_columns(s, repo, schema, table, (n - 1) as nat);
        DataState {
            graph: t.graph.with_node(column_fact(repo, schema, table.name@, table.columns@[n - 1].name@)),
            counts: DataCounts { columns: t.counts.columns + 1, ..t.counts },
        }
    }
}

/// The state with the nodes of the first `n` tables of a schema.
pub open spec fn with_tables(s: DataState, repo: Seq<char>, schema: SchemaModel, n: nat) -> DataState
    decreases n,
{
    if n == 0 {
        s
    } else {
        let t = with_tables(s, repo, schema, (n - 1) as nat);
        let table = schema.tables@[n - 1];
        let u = DataState {
            graph: t.graph.with_node(table_fact(repo, schema.path@, table.name@)),
            counts: DataCounts { tables: t.counts.tables + 1, ..t.counts },
        };
        with_columns(u, repo, schema.path@, table, table.columns@.len())
    }
}

/// The state with the nodes of the first `n` schemas.
pub open spec fn with_schema_nodes(s: DataState, repo: Seq<char>, schemas: Seq<SchemaModel>, n: nat) -> DataState
    decreases n,
{
    if n == 0 {
        s
    } else {
        let schema = schemas[n - 1];
        with_tables(with_schema_nodes(s, repo, schemas, (n - 1) as nat), repo, schema, schema.tables@.len())
    }
}

// ----------------------------------------------------------------------------------------------
// Resolution
// ----------------------------------------------------------------------------------------------

/// Whether a schema declares a table.
pub open spec fn declares_table(schema: SchemaModel, table: Seq<char>) -> bool {
    exists|i: int| 0 <= i < schema.tables@.len() && (#[trigger] schema.tables@[i]).name@ == table
}

/// Whether a table has a column.
pub open spec fn has_column(table: TableDef, column: Seq<char>) -> bool {
    exists|i: int| 0 <= i < table.columns@.len() && (#[trigger] table.columns@[i]).name@ == column
}

/// Whether a schema declares a column of a table.
pub open spec fn declares_column(schema: SchemaModel, table: Seq<char>, column: Seq<char>) -> bool {
    exists|i: int|
        0 <= i < schema.tables@.len() && (#[trigger] schema.tables@[i]).name@ == table && has_column(
            schema.tables@[i],
            column,
        )
}

/// The table node of a name: in the first schema at or after `from` that declares it.
pub open spec fn table_from(repo: Seq<char>, schemas: Seq<SchemaModel>, table: Seq<char>, from: int) -> Option<Seq<char>>
    decreases schemas.len() - from,
{
    if from >= schemas.len() {
        None
    } else if declares_table(schemas[from], table) {
        Some(table_id(repo, schemas[from].path@, table))
    } else {
        table_from(repo, schemas, table, from + 1)
    }
}

/// The column node of a name: in the first schema at or after `from` that declares it.
pub open spec fn column_from(
    repo: Seq<char>,
    schemas: Seq<SchemaModel>,
    table: Seq<char>,
    column: Seq<char>,
    from: int,
) -> Option<Seq<char>>
    decreases schemas.len() - from,
{
    if from >= schemas.len() {
        None
    } else if declares_column(schemas[from], table, column) {
        Some(column_id(repo, schemas[from].path@, table, column))
    } else {
        column_from(repo, schemas, table, column, from + 1)
    }
}

fn schema_has_table(schema: &SchemaModel, table: &str) -> (r: bool)
    ensures
        r == declares_table(*schema, table@),
{
    let mut i: usize = 0;
    while i < schema.tables.len()
        invariant
            i <= schema.tables@.len(),
            forall|j: int| 0 <= j < i ==> (#[trigger] schema.tables@[j]).name@ != table@,
        decreases schema.tables@.len() - i,
    {
        if text::same(schema.tables[i].name.as_str(), table) {
            return true;
        }
        i = i + 1;
    }
    false
}

fn table_has_column(table: &TableDef, column: &str) -> (r: bool)
    ensures
        r == has_column(*table, column@),
{
    let mut i: usize = 0;
    while i < table.columns.len()
        invariant
            i <= table.columns@.len(),
            forall|j: int| 0 <= j < i ==> (#[trigger] table.columns@[j]).name@ != column@,
        decreases table.columns@.len() - i,
    {
        if text::same(table.columns[i].name.as_str(), column) {
            return true;
        }
        i = i + 1;
    }
    false
}

fn schema_has_column(schema: &SchemaModel, table: &str, column: &str) -> (r: bool)
    ensures
        r == declares_column(*schema, table@, column@),
{
    let mut i: usize = 0;
    while i < schema.tables.len()
        invariant
            i <= schema.tables@.len(),
            forall|j: int|
                0 <= j < i ==> !((#[trigger] schema.tables@[j]).name@ == table@ && has_column(
                    schema.tables@[j],
                    column@,
                )),
        decreases schema.tables@.len() - i,
    {
        if text::same(schema.tables[i].name.as_str(), table) && table_has_column(&schema.tables[i], column) {
            return true;
        }
        i = i + 1;
    }
    false
}

/// The node of a table, in the first schema that declares it.
pub fn resolve_table(repo_name: &str, schemas: &Vec<SchemaModel>, table: &str) -> (r: Option<Uid>)
    ensures
        match r {
            Some(u) => table_from(repo_name@, schemas@, table@, 0) == Some(u@),
            None => table_from(repo_name@, schemas@, table@, 0) is None,
        },
{
    let mut i: usize = 0;
    while i < schemas.len()
        invariant
            i <= schemas@.len(),
            table_from(repo_name@, schemas@, table@, 0) == table_from(repo_name@, schemas@, table@, i as int),
        decreases schemas@.len() - i,
    {
        if schema_has_table(&schemas[i], table) {
            return Some(table_uid(repo_name, schemas[i].path.as_str(), table));
        }
        i = i + 1;
    }
    None
}

/// The node of a column, in the first schema that declares it.
pub fn resolve_ref_column(repo_name: &str, schemas: &Vec<SchemaModel>, ref_table: &str, ref_column: &str) -> (r: Option<
    Uid,
>)
    ensures
        match r {
            Some(u) => column_from(repo_name@, schemas@, ref_table@, ref_column@, 0) == Some(u@),
            None => column_from(repo_name@, schemas@, ref_table@, ref_column@, 0) is None,
        },
{
    let mut i: usize = 0;
    while i < schemas.len()
        invariant
            i <= schemas@.len(),
            column_from(repo_name@, schemas@, ref_table@, ref_column@, 0) == column_from(
                repo_name@,
                schemas@,
                ref_table@,
                ref_column@,
                i as int,
            ),
        decreases schemas@.len() - i,
    {
        if schema_has_column(&schemas[i], ref_table, ref_column) {
            return Some(column_uid(repo_name, schemas[i].path.as_str(), ref_table, ref_column));
        }
        i = i + 1;
    }
    None
}

// ----------------------------------------------------------------------------------------------
// Columns and foreign keys
// ----------------------------------------------------------------------------------------------

/// The graph with an edge from a table to each of its first `n` columns.
pub open spec fn with_column_edges(g: GraphView, repo: Seq<char>, schema: Seq<char>, table: TableDef, n: nat) -> GraphView
    decreases n,
{
    if n == 0 {
        g
    } else {
        with_column_edges(g, repo, schema, table, (n - 1) as nat).with_edge(
            model::edge_of(
                table_id(repo, schema, table.name@),
                column_id(repo, schema, table.name@, table.columns@[n - 1].name@),
                EdgeKind::HasColumn,
                Provenance::Extracted,
                CONF_DATA_FACT,
            ),
        )
    }
}

/// The state with the first `n` foreign keys of a table.
pub open spec fn with_foreign_keys(
    s: DataState,
    repo: Seq<char>,
    schemas: Seq<SchemaModel>,
    schema: Seq<char>,
    table: TableDef,
    n: nat,
) -> DataState
    decreases n,
{
    if n == 0 {
        s
    } else {
        let t = with_foreign_keys(s, repo, schemas, schema, table, (n - 1) as nat);
        let fk = table.foreign_keys@[n - 1];
        match column_from(repo, schemas, fk.ref_table@, fk.ref_column@, 0) {
            Some(dst) => DataState {
                graph: t.graph.with_edge(
                    model::edge_of(
                        column_id(repo, schema, table.name@, fk.column@),
                        dst,
                        EdgeKind::ForeignKey,
                        Provenance::Extracted,
                        CONF_DATA_FACT,
                    ),
                ),
                counts: DataCounts { fks: t.counts.fks + 1, fks_linked: t.counts.fks_linked + 1, ..t.counts },
            },
            None => DataState {
                graph: t.graph,
                counts: DataCounts {
                    fks: t.counts.fks + 1,
                    fks_unresolved: t.counts.fks_unresolved + 1,
                    ..t.counts
                },
            },
        }
    }
}

/// The state with the edges of the first `n` tables of a schema.
pub open spec fn with_table_edges(
    s: DataState,
    repo: Seq<char>,
    schemas: Seq<SchemaModel>,
    schema: SchemaModel,
    n: nat,
) -> DataState
    decreases n,
{
    if n == 0 {
        s
    } else {
        let t = with_table_edges(s, repo, schemas, schema, (n - 1) as nat);
        let table = schema.tables@[n - 1];
        let u = DataState {
            graph: with_column_edges(t.graph, repo, schema.path@, table, table.columns@.len()),
            counts: t.counts,
        };
        with_foreign_keys(u, repo, schemas, schema.path@, table, table.foreign_keys@.len())
    }
}

/// The state with the edges of the first `n` schemas.
pub open spec fn with_schema_edges(s: DataState, repo: Seq<char>, schemas: Seq<SchemaModel>, n: nat) -> DataState
    decreases n,
{
    if n == 0 {
        s
    } else {
        let schema = schemas[n - 1];
        with_table_edges(
            with_schema_edges(s, repo, schemas, (n - 1) as nat),
            repo,
            schemas,
            schema,
            schema.tables@.len(),
        )
    }
}

// ----------------------------------------------------------------------------------------------
// Code
// ----------------------------------------------------------------------------------------------

/// The code node that a SQL literal stands in: the enclosing symbol where the graph has it, else
/// the module of the file.
pub open spec fn code_node(g: GraphView, lang: Seq<char>, repo: Seq<char>, path: Seq<char>, enclosing: Seq<char>) -> Seq<
    char,
> {
    let sym = model::uid_text(lang, repo, path, enclosing, ""@);
    if enclosing.len() > 0 && g.has(sym) {
        sym
    } else {
        model::uid_text(lang, repo, path, "<module>"@, ""@)
    }
}

/// The code node that a SQL literal stands in.
pub fn code_node_uid(g: &Graph, lang: &str, repo_name: &str, path: &str, enclosing_fqn: &str) -> (r: Uid)
    ensures
        r@ == code_node(g@, lang@, repo_name@, path@, enclosing_fqn@),
{
    if enclosing_fqn.unicode_len() > 0 {
        let sym = Uid::new(lang, repo_name, path, enclosing_fqn, "");
        if g.has_node(&sym) {
            return sym;
        }
    }
    Uid::new(lang, repo_name, path, "<module>", "")
}

/// The counts with one table reference more.
pub open spec fn count_ref(c: DataCounts, access: SqlAccess, linked: bool) -> DataCounts {
    match (access, linked) {
        (SqlAccess::Read, true) => DataCounts { reads_linked: c.reads_linked + 1, ..c },
        (SqlAccess::Read, false) => DataCounts { reads_unresolved: c.reads_unresolved + 1, ..c },
        (SqlAccess::Write, true) => DataCounts { writes_linked: c.writes_linked + 1, ..c },
        (SqlAccess::Write, false) => DataCounts { writes_unresolved: c.writes_unresolved + 1, ..c },
    }
}

/// The kind of the edge of a table reference.
pub open spec fn access_kind(access: SqlAccess) -> EdgeKind {
    match access {
        SqlAccess::Read => EdgeKind::Reads,
        SqlAccess::Write => EdgeKind::Writes,
    }
}

/// The state with the first `n` table references of a SQL literal.
pub open spec fn with_refs(
    s: DataState,
    repo: Seq<char>,
    schemas: Seq<SchemaModel>,
    lang: Seq<char>,
    path: Seq<char>,
    cand: SqlCandidate,
    n: nat,
) -> DataState
    decreases n,
{
    if n == 0 {
        s
    } else {
        let t = with_refs(s, repo, schemas, lang, path, cand, (n - 1) as nat);
        let tref = cand.refs@[n - 1];
        match table_from(repo, schemas, tref.table@, 0) {
            Some(dst) => DataState {
                graph: t.graph.with_edge(
                    model::edge_of(
                        code_node(t.graph, lang, repo, path, cand.enclosing_fqn@),
                        dst,
                        access_kind(tref.access),
                        Provenance::Extracted,
                        CONF_DATA_FACT,
                    ),
                ),
                counts: count_ref(t.counts, tref.access, true),
            },
            None => DataState { graph: t.graph, counts: count_ref(t.counts, tref.access, false) },
        }
    }
}

/// The state with the first `n` SQL literals of a file.
pub open spec fn with_candidates(
    s: DataState,
    repo: Seq<char>,
    schemas: Seq<SchemaModel>,
    lang: Seq<char>,
    path: Seq<char>,
    cands: Seq<SqlCandidate>,
    n: nat,
) -> DataState
    decreases n,
{
    if n == 0 {
        s
    } else {
        let cand = cands[n - 1];
        with_refs(
            with_candidates(s, repo, schemas, lang, path, cands, (n - 1) as nat),
            repo,
            schemas,
            lang,
            path,
            cand,
            cand.refs@.len(),
        )
    }
}

/// The state with the SQL literals of the first `n` files.
pub open spec fn with_code_sql(
    s: DataState,
    repo: Seq<char>,
    schemas: Seq<SchemaModel>,
    files: Seq<SqlFileView>,
    n: nat,
) -> DataState
    decreases n,
{
    if n == 0 {
        s
    } else {
        let f = files[n - 1];
        with_candidates(
            with_code_sql(s, repo, schemas, files, (n - 1) as nat),
            repo,
            schemas,
            f.lang,
            f.path,
            f.candidates,
            f.candidates.len(),
        )
    }
}

/// The state with the first `n` model classes of a file: linked where the table is declared and
/// the graph has the class.
pub open spec fn with_hints(
    s: DataState,
    repo: Seq<char>,
    schemas: Seq<SchemaModel>,
    lang: Seq<char>,
    path: Seq<char>,
    hints: Seq<OrmModelHint>,
    n: nat,
) -> DataState
    decreases n,
{
    if n == 0 {
        s
    } else {
        let t = with_hints(s, repo, schemas, lang, path, hints, (n - 1) as nat);
        let hint = hints[n - 1];
        let src = model::uid_text(lang, repo, path, hint.model_fqn@, ""@);
        let table = table_from(repo, schemas, hint.table_name@, 0);
        match table {
            Some(dst) if t.graph.has(src) => DataState {
                graph: t.graph.with_edge(
                    model::edge_of(src, dst, EdgeKind::MapsTo, Provenance::Extracted, CONF_ORM_EXPLICIT),
                ),
                counts: DataCounts {
                    models: t.counts.models + 1,
                    models_linked: t.counts.models_linked + 1,
                    ..t.counts
                },
            },
            _ => DataState {
                graph: t.graph,
                counts: DataCounts {
                    models: t.counts.models + 1,
                    models_unresolved: t.counts.models_unresolved + 1,
                    ..t.counts
                },
            },
        }
    }
}

/// The state with the model classes of the first `n` files.
pub open spec fn with_code_orm(
    s: DataState,
    repo: Seq<char>,
    schemas: Seq<SchemaModel>,
    files: Seq<OrmFileView>,
    n: nat,
) -> DataState
    decreases n,
{
    if n == 0 {
        s
    } else {
        let f = files[n - 1];
        with_hints(
            with_code_orm(s, repo, schemas, files, (n - 1) as nat),
            repo,
            schemas,
            f.lang,
            f.path,
            f.hints,
            f.hints.len(),
        )
    }
}

fn add_table_nodes(g: &mut Graph, repo_name: &str, schema_path: &str, table: &TableDef, cov: &mut DataLinkCoverage, Ghost(c): Ghost<DataCounts>)
    requires
        old(cov).counts(c),
    ensures
        ({
            let u = DataState {
                graph: old(g)@.with_node(table_fact(repo_name@, schema_path@, table.name@)),
                counts: DataCounts { tables: c.tables + 1, ..c },
            };
            let e = with_columns(u, repo_name@, schema_path@, *table, table.columns@.len());
            final(g)@ == e.graph && final(cov).counts(e.counts)
        }),
        final(cov).schemas_detected == old(cov).schemas_detected,
        final(cov).schemas_failed == old(cov).schemas_failed,
        final(cov).statements_skipped == old(cov).statements_skipped,
{
    cov.tables_total = model::bump(cov.tables_total);
    let name = table.name.as_str();
    g.add_node(
        model::extracted_node(
            table_uid(repo_name, schema_path, name),
            NodeKind::Table,
            name,
            name,
            schema_path,
            Span::default(),
        ),
    );
    let ghost u = DataState { graph: g@, counts: DataCounts { tables: c.tables + 1, ..c } };
    let mut i: usize = 0;
    while i < table.columns.len()
        invariant
            i <= table.columns@.len(),
            name@ == table.name@,
            g@ == with_columns(u, repo_name@, schema_path@, *table, i as nat).graph,
            cov.counts(with_columns(u, repo_name@, schema_path@, *table, i as nat).counts),
            cov.schemas_detected == old(cov).schemas_detected,
            cov.schemas_failed == old(cov).schemas_failed,
            cov.statements_skipped == old(cov).statements_skipped,
        decreases table.columns@.len() - i,
    {
        let column = table.columns[i].name.as_str();
        cov.columns_total = model::bump(cov.columns_total);
        let fqn = text::concat3(name, ".", column);
        g.add_node(
            model::extracted_node(
                column_uid(repo_name, schema_path, name, column),
                NodeKind::Column,
                column,
                fqn.as_str(),
                schema_path,
                Span::default(),
            ),
        );
        i = i + 1;
    }
}

fn add_table_edges(
    g: &mut Graph,
    repo_name: &str,
    schemas: &Vec<SchemaModel>,
    schema_path: &str,
    table: &TableDef,
    cov: &mut DataLinkCoverage,
    Ghost(c): Ghost<DataCounts>,
)
    requires
        old(cov).counts(c),
    ensures
        ({
            let u = DataState {
                graph: with_column_edges(old(g)@, repo_name@, schema_path@, *table, table.columns@.len()),
                counts: c,
            };
            let e = with_foreign_keys(
                u,
                repo_name@,
                schemas@,
                schema_path@,
                *table,
                table.foreign_keys@.len(),
            );
            final(g)@ == e.graph && final(cov).counts(e.counts)
        }),
        final(cov).schemas_detected == old(cov).schemas_detected,
        final(cov).schemas_failed == old(cov).schemas_failed,
        final(cov).statements_skipped == old(cov).statements_skipped,
{
    let name = table.name.as_str();
    let src = table_uid(repo_name, schema_path, name);
    let ghost before = g@;
    let mut i: usize = 0;
    while i < table.columns.len()
        invariant
            i <= table.columns@.len(),
            name@ == table.name@,
            src@ == table_id(repo_name@, schema_path@, name@),
            g@ == with_column_edges(before, repo_name@, schema_path@, *table, i as nat),
        decreases table.columns@.len() - i,
    {
        let dst = column_uid(repo_name, schema_path, name, table.columns[i].name.as_str());
        g.add_edge(Edge::make(&src, &dst, EdgeKind::HasColumn, Provenance::Extracted, CONF_DATA_FACT));
        i = i + 1;
    }
    let ghost u = DataState { graph: g@, counts: c };
    let mut j: usize = 0;
    while j < table.foreign_keys.len()
        invariant
            j <= table.foreign_keys@.len(),
            name@ == table.name@,
            g@ == with_foreign_keys(u, repo_name@, schemas@, schema_path@, *table, j as nat).graph,
            cov.counts(with_foreign_keys(u, repo_name@, schemas@, schema_path@, *table, j as nat).counts),
            cov.schemas_detected == old(cov).schemas_detected,
            cov.schemas_failed == old(cov).schemas_failed,
            cov.statements_skipped == old(cov).statements_skipped,
        decreases table.foreign_keys@.len() - j,
    {
        let fk = &table.foreign_keys[j];
        cov.fks_total = model::bump(cov.fks_total);
        match resolve_ref_column(repo_name, schemas, fk.ref_table.as_str(), fk.ref_column.as_str()) {
            Some(dst) => {
                let from = column_uid(repo_name, schema_path, name, fk.column.as_str());
                g.add_edge(
                    Edge::make(&from, &dst, EdgeKind::ForeignKey, Provenance::Extracted, CONF_DATA_FACT),
                );
                cov.fks_linked = model::bump(cov.fks_linked);
            },
            None => {
                cov.fks_unresolved = model::bump(cov.fks_unresolved);
            },
        }
        j = j + 1;
    }
}

fn add_candidate(
    g: &mut Graph,
    repo_name: &str,
    schemas: &Vec<SchemaModel>,
    lang: &str,
    path: &str,
    cand: &SqlCandidate,
    cov: &mut DataLinkCoverage,
    Ghost(c): Ghost<DataCounts>,
)
    requires
        old(cov).counts(c),
    ensures
        ({
            let u = DataState { graph: old(g)@, counts: c };
            let e = with_refs(u, repo_name@, schemas@, lang@, path@, *cand, cand.refs@.len());
            final(g)@ == e.graph && final(cov).counts(e.counts)
        }),
        final(cov).schemas_detected == old(cov).schemas_detected,
        final(cov).schemas_failed == old(cov).schemas_failed,
        final(cov).statements_skipped == old(cov).statements_skipped,
{
    let ghost u = DataState { graph: g@, counts: c };
    let mut i: usize = 0;
    while i < cand.refs.len()
        invariant
            i <= cand.refs@.len(),
            g@ == with_refs(u, repo_name@, schemas@, lang@, path@, *cand, i as nat).graph,
            cov.counts(with_refs(u, repo_name@, schemas@, lang@, path@, *cand, i as nat).counts),
            cov.schemas_detected == old(cov).schemas_detected,
            cov.schemas_failed == old(cov).schemas_failed,
            cov.statements_skipped == old(cov).statements_skipped,
        decreases cand.refs@.len() - i,
    {
        let tref = &cand.refs[i];
        match resolve_table(repo_name, schemas, tref.table.as_str()) {
            Some(dst) => {
                let src = code_node_uid(g, lang, repo_name, path, cand.enclosing_fqn.as_str());
                match tref.access {
                    SqlAccess::Read => {
                        g.add_edge(
                            Edge::make(&src, &dst, EdgeKind::Reads, Provenance::Extracted, CONF_DATA_FACT),
                        );
                        cov.reads_linked = model::bump(cov.reads_linked);
                    },
                    SqlAccess::Write => {
                        g.add_edge(
                            Edge::make(&src, &dst, EdgeKind::Writes, Provenance::Extracted, CONF_DATA_FACT),
                        );
                        cov.writes_linked = model::bump(cov.writes_linked);
                    },
                }
            },
            None => match tref.access {
                SqlAccess::Read => {
                    cov.reads_unresolved = model::bump(cov.reads_unresolved);
                },
                SqlAccess::Write => {
                    cov.writes_unresolved = model::bump(cov.writes_unresolved);
                },
            },
        }
        i = i + 1;
    }
}

fn add_hints(
    g: &mut Graph,
    repo_name: &str,
    schemas: &Vec<SchemaModel>,
    file: &CodeOrmFile<'_>,
    cov: &mut DataLinkCoverage,
    Ghost(c): Ghost<DataCounts>,
)
    requires
        old(cov).counts(c),
    ensures
        ({
            let u = DataState { graph: old(g)@, counts: c };
            let e = with_hints(
                u,
                repo_name@,
                schemas@,
                file.lang@,
                file.path@,
                file.hints@,
                file.hints@.len(),
            );
            final(g)@ == e.graph && final(cov).counts(e.counts)
        }),
        final(cov).schemas_detected == old(cov).schemas_detected,
        final(cov).schemas_failed == old(cov).schemas_failed,
        final(cov).statements_skipped == old(cov).statements_skipped,
{
    let ghost u = DataState { graph: g@, counts: c };
    let mut i: usize = 0;
    while i < file.hints.len()
        invariant
            i <= file.hints@.len(),
            g@ == with_hints(u, repo_name@, schemas@, file.lang@, file.path@, file.hints@, i as nat).graph,
            cov.counts(
                with_hints(u, repo_name@, schemas@, file.lang@, file.path@, file.hints@, i as nat).counts,
            ),
            cov.schemas_detected == old(cov).schemas_detected,
            cov.schemas_failed == old(cov).schemas_failed,
            cov.statements_skipped == old(cov).statements_skipped,
        decreases file.hints@.len() - i,
    {
        let hint = &file.hints[i];
        cov.orm_models_total = model::bump(cov.orm_models_total);
        let src = Uid::new(file.lang, repo_name, file.path, hint.model_fqn.as_str(), "");
        match resolve_table(repo_name, schemas, hint.table_name.as_str()) {
            Some(dst) => {
                if g.has_node(&src) {
                    g.add_edge(
                        Edge::make(&src, &dst, EdgeKind::MapsTo, Provenance::Extracted, CONF_ORM_EXPLICIT),
                    );
                    cov.orm_models_linked = model::bump(cov.orm_models_linked);
                } else {
                    cov.orm_models_unresolved = model::bump(cov.orm_models_unresolved);
                }
            },
            None => {
                cov.orm_models_unresolved = model::bump(cov.orm_models_unresolved);
            },
        }
        i = i + 1;
    }
}

/// The number of statements that the first `n` schemas skipped.
pub open spec fn skipped(schemas: Seq<SchemaModel>, n: nat) -> nat
    decreases n,
{
    if n == 0 {
        0
    } else {
        skipped(schemas, (n - 1) as nat) + schemas[n - 1].skipped_statements as nat
    }
}

/// The data plane on top of `g`: nodes, then the edges of the schemas, then those of the SQL
/// literals, then those of the model classes.
pub open spec fn data_plane(
    g: GraphView,
    repo: Seq<char>,
    schemas: Seq<SchemaModel>,
    sql: Seq<SqlFileView>,
    orm: Seq<OrmFileView>,
) -> DataState {
    let s = DataState { graph: g, counts: DataCounts::zero() };
    let a = with_schema_nodes(s, repo, schemas, schemas.len());
    let b = with_schema_edges(a, repo, schemas, schemas.len());
    let c = with_code_sql(b, repo, schemas, sql, sql.len());
    with_code_orm(c, repo, schemas, orm, orm.len())
}

/// Adds the data plane of a repository and reports how it linked up.
pub fn build_data_plane(
    g: &mut Graph,
    repo_name: &str,
    schemas: &Vec<SchemaModel>,
    code_sql: &Vec<CodeSqlFile<'_>>,
    code_orm: &Vec<CodeOrmFile<'_>>,
) -> (r: DataLinkCoverage)
    ensures
        final(g)@ == data_plane(old(g)@, repo_name@, schemas@, sql_views(code_sql@), orm_views(code_orm@)).graph,
        r.counts(data_plane(old(g)@, repo_name@, schemas@, sql_views(code_sql@), orm_views(code_orm@)).counts),
        r.schemas_detected == schemas@.len(),
        r.schemas_failed == 0,
        r.statements_skipped == model::cap(skipped(schemas@, schemas@.len())),
{
    let mut cov = DataLinkCoverage::default();
    cov.schemas_detected = schemas.len();
    let ghost s0 = DataState { graph: g@, counts: DataCounts::zero() };
    let mut k: usize = 0;
    while k < schemas.len()
        invariant
            k <= schemas@.len(),
            cov.counts(DataCounts::zero()),
            cov.schemas_detected == schemas@.len(),
            cov.schemas_failed == 0,
            cov.statements_skipped == model::cap(skipped(schemas@, k as nat)),
        decreases schemas@.len() - k,
    {
        assert(schemas@[k as int].skipped_statements == model::cap(
            schemas@[k as int].skipped_statements as nat,
        ));
        cov.statements_skipped = model::plus(cov.statements_skipped, schemas[k].skipped_statements);
        k = k + 1;
    }
    let mut i: usize = 0;
    while i < schemas.len()
        invariant
            i <= schemas@.len(),
            g@ == with_schema_nodes(s0, repo_name@, schemas@, i as nat).graph,
            cov.counts(with_schema_nodes(s0, repo_name@, schemas@, i as nat).counts),
            cov.schemas_detected == schemas@.len(),
            cov.schemas_failed == 0,
            cov.statements_skipped == model::cap(skipped(schemas@, schemas@.len())),
        decreases schemas@.len() - i,
    {
        let schema = &schemas[i];
        let ghost base = with_schema_nodes(s0, repo_name@, schemas@, i as nat);
        let mut t: usize = 0;
        while t < schema.tables.len()
            invariant
                t <= schema.tables@.len(),
                g@ == with_tables(base, repo_name@, *schema, t as nat).graph,
                cov.counts(with_tables(base, repo_name@, *schema, t as nat).counts),
                cov.schemas_detected == schemas@.len(),
                cov.schemas_failed == 0,
                cov.statements_skipped == model::cap(skipped(schemas@, schemas@.len())),
            decreases schema.tables@.len() - t,
        {
            add_table_nodes(
                g,
                repo_name,
                schema.path.as_str(),
                &schema.tables[t],
                &mut cov,
                Ghost(with_tables(base, repo_name@, *schema, t as nat).counts),
            );
            t = t + 1;
        }
        i = i + 1;
    }
    let ghost s1 = with_schema_nodes(s0, repo_name@, schemas@, schemas@.len());
    let mut i: usize = 0;
    while i < schemas.len()
        invariant
            i <= schemas@.len(),
            g@ == with_schema_edges(s1, repo_name@, schemas@, i as nat).graph,
            cov.counts(with_schema_edges(s1, repo_name@, schemas@, i as nat).counts),
            cov.schemas_detected == schemas@.len(),
            cov.schemas_failed == 0,
            cov.statements_skipped == model::cap(skipped(schemas@, schemas@.len())),
        decreases schemas@.len() - i,
    {
        let schema = &schemas[i];
        let ghost base = with_schema_edges(s1, repo_name@, schemas@, i as nat);
        let mut t: usize = 0;
        while t < schema.tables.len()
            invariant
                t <= schema.tables@.len(),
                g@ == with_table_edges(base, repo_name@, schemas@, *schema, t as nat).graph,
                cov.counts(with_table_edges(base, repo_name@, schemas@, *schema, t as nat).counts),
                cov.schemas_detected == schemas@.len(),
                cov.schemas_failed == 0,
                cov.statements_skipped == model::cap(skipped(schemas@, schemas@.len())),
            decreases schema.tables@.len() - t,
        {
            add_table_edges(
                g,
                repo_name,
                schemas,
                schema.path.as_str(),
                &schema.tables[t],
                &mut cov,
                Ghost(with_table_edges(base, repo_name@, schemas@, *schema, t as nat).counts),
            );
            t = t + 1;
        }
        i = i + 1;
    }
    let ghost s2 = with_schema_edges(s1, repo_name@, schemas@, schemas@.len());
    let mut f: usize = 0;
    while f < code_sql.len()
        invariant
            f <= code_sql@.len(),
            g@ == with_code_sql(s2, repo_name@, schemas@, sql_views(code_sql@), f as nat).graph,
            cov.counts(with_code_sql(s2, repo_name@, schemas@, sql_views(code_sql@), f as nat).counts),
            cov.schemas_detected == schemas@.len(),
            cov.schemas_failed == 0,
            cov.statements_skipped == model::cap(skipped(schemas@, schemas@.len())),
        decreases code_sql@.len() - f,
    {
        let file = &code_sql[f];
        assert(sql_views(code_sql@)[f as int] == file@);
        let ghost base = with_code_sql(s2, repo_name@, schemas@, sql_views(code_sql@), f as nat);
        let mut c: usize = 0;
        while c < file.candidates.len()
            invariant
                c <= file.candidates@.len(),
                g@ == with_candidates(
                    base,
                    repo_name@,
                    schemas@,
                    file.lang@,
                    file.path@,
                    file.candidates@,
                    c as nat,
                ).graph,
                cov.counts(
                    with_candidates(
                        base,
                        repo_name@,
                        schemas@,
                        file.lang@,
                        file.path@,
                        file.candidates@,
                        c as nat,
                    ).counts,
                ),
                cov.schemas_detected == schemas@.len(),
                cov.schemas_failed == 0,
                cov.statements_skipped == model::cap(skipped(schemas@, schemas@.len())),
            decreases file.candidates@.len() - c,
        {
            add_candidate(
                g,
                repo_name,
                schemas,
                file.lang,
                file.path,
                &file.candidates[c],
                &mut cov,
                Ghost(
                    with_candidates(
                        base,
                        repo_name@,
                        schemas@,
                        file.lang@,
                        file.path@,
                        file.candidates@,
                        c as nat,
                    ).counts,
                ),
            );
            c = c + 1;
        }
        f = f + 1;
    }
    let ghost s3 = with_code_sql(s2, repo_name@, schemas@, sql_views(code_sql@), code_sql@.len());
    let mut h: usize = 0;
    while h < code_orm.len()
        invariant
            h <= code_orm@.len(),
            g@ == with_code_orm(s3, repo_name@, schemas@, orm_views(code_orm@), h as nat).graph,
            cov.counts(with_code_orm(s3, repo_name@, schemas@, orm_views(code_orm@), h as nat).counts),
            cov.schemas_detected == schemas@.len(),
            cov.schemas_failed == 0,
            cov.statements_skipped == model::cap(skipped(schemas@, schemas@.len())),
        decreases code_orm@.len() - h,
    {
        assert(orm_views(code_orm@)[h as int] == code_orm@[h as int]@);
        add_hints(
            g,
            repo_name,
            schemas,
            &code_orm[h],
            &mut cov,
            Ghost(with_code_orm(s3, repo_name@, schemas@, orm_views(code_orm@), h as nat).counts),
        );
        h = h + 1;
    }
    cov
}

/// The graph of the data plane alone, without code.
pub fn assemble_graph_with_data(repo_name: &str, schemas: &Vec<SchemaModel>) -> (r: (Graph, DataLinkCoverage))
    ensures
        r.0@ == data_plane(GraphView::empty(), repo_name@, schemas@, Seq::empty(), Seq::empty()).graph,
        r.1.counts(data_plane(GraphView::empty(), repo_name@, schemas@, Seq::empty(), Seq::empty()).counts),
        r.1.schemas_detected == schemas@.len(),
        r.1.schemas_failed == 0,
        r.1.statements_skipped == model::cap(skipped(schemas@, schemas@.len())),
{
    let mut g = Graph::new();
    let no_sql: Vec<CodeSqlFile<'_>> = Vec::new();
    let no_orm: Vec<CodeOrmFile<'_>> = Vec::new();
    assert(sql_views(no_sql@) =~= Seq::empty());
    assert(orm_views(no_orm@) =~= Seq::empty());
    let cov = build_data_plane(&mut g, repo_name, schemas, &no_sql, &no_orm);
    (g, cov)
}

// ----------------------------------------------------------------------------------------------
// Laws
// ----------------------------------------------------------------------------------------------

/// Whether the columns of a table are nodes of `g`.
pub open spec fn shows_columns(g: GraphView, repo: Seq<char>, schema: Seq<char>, table: TableDef, n: nat) -> bool {
    forall|i: int|
        0 <= i < n ==> g.has(column_id(repo, schema, table.name@, (#[trigger] table.columns@[i]).name@))
}

/// Whether a table and its columns are nodes of `g`.
pub open spec fn shows_table(g: GraphView, repo: Seq<char>, schema: Seq<char>, table: TableDef) -> bool {
    g.has(table_id(repo, schema, table.name@)) && shows_columns(g, repo, schema, table, table.columns@.len())
}

/// Whether the first `n` tables of a schema are nodes of `g`.
pub open spec fn shows_tables(g: GraphView, repo: Seq<char>, schema: SchemaModel, n: nat) -> bool {
    forall|i: int| 0 <= i < n ==> shows_table(g, repo, schema.path@, #[trigger] schema.tables@[i])
}

/// Whether the tables of the first `n` schemas are nodes of `g`.
pub open spec fn shows_schemas(g: GraphView, repo: Seq<char>, schemas: Seq<SchemaModel>, n: nat) -> bool {
    forall|i: int| 0 <= i < n ==> shows_tables(g, repo, #[trigger] schemas[i], schemas[i].tables@.len())
}

/// Every foreign key and every model class is either linked or unresolved.
pub open spec fn balanced(c: DataCounts) -> bool {
    c.fks == c.fks_linked + c.fks_unresolved && c.models == c.models_linked + c.models_unresolved
}

proof fn lemma_shows_kept(g: GraphView, h: GraphView, repo: Seq<char>, schema: Seq<char>, table: TableDef)
    requires
        model::extends(g, h),
        shows_table(g, repo, schema, table),
    ensures
        shows_table(h, repo, schema, table),
{
    assert forall|i: int| 0 <= i < table.columns@.len() implies h.has(
        column_id(repo, schema, table.name@, (#[trigger] table.columns@[i]).name@),
    ) by {
        assert(g.has(column_id(repo, schema, table.name@, table.columns@[i].name@)));
    }
}

proof fn lemma_schemas_kept(g: GraphView, h: GraphView, repo: Seq<char>, schemas: Seq<SchemaModel>, n: nat)
    requires
        model::extends(g, h),
        n <= schemas.len(),
        shows_schemas(g, repo, schemas, n),
    ensures
        shows_schemas(h, repo, schemas, n),
{
    assert forall|i: int| 0 <= i < n implies shows_tables(
        h,
        repo,
        #[trigger] schemas[i],
        schemas[i].tables@.len(),
    ) by {
        assert(shows_tables(g, repo, schemas[i], schemas[i].tables@.len()));
        assert forall|j: int| 0 <= j < schemas[i].tables@.len() implies shows_table(
            h,
            repo,
            schemas[i].path@,
            #[trigger] schemas[i].tables@[j],
        ) by {
            lemma_shows_kept(g, h, repo, schemas[i].path@, schemas[i].tables@[j]);
        }
    }
}

proof fn lemma_columns(s: DataState, repo: Seq<char>, schema: Seq<char>, table: TableDef, n: nat)
    requires
        n <= table.columns@.len(),
        balanced(s.counts),
    ensures
        model::grows(s.graph, with_columns(s, repo, schema, table, n).graph),
        shows_columns(with_columns(s, repo, schema, table, n).graph, repo, schema, table, n),
        balanced(with_columns(s, repo, schema, table, n).counts),
    decreases n,
{
    if n > 0 {
        lemma_columns(s, repo, schema, table, (n - 1) as nat);
        let t = with_columns(s, repo, schema, table, (n - 1) as nat);
        let node = column_fact(repo, schema, table.name@, table.columns@[n - 1].name@);
        model::lemma_grows_node(s.graph, t.graph, node);
        let h = t.graph.with_node(node);
        assert forall|i: int| 0 <= i < n implies h.has(
            column_id(repo, schema, table.name@, (#[trigger] table.columns@[i]).name@),
        ) by {
            if i < n - 1 {
                assert(t.graph.has(column_id(repo, schema, table.name@, table.columns@[i].name@)));
            }
        }
    }
}

proof fn lemma_tables(s: DataState, repo: Seq<char>, schema: SchemaModel, n: nat)
    requires
        n <= schema.tables@.len(),
        balanced(s.counts),
    ensures
        model::grows(s.graph, with_tables(s, repo, schema, n).graph),
        shows_tables(with_tables(s, repo, schema, n).graph, repo, schema, n),
        balanced(with_tables(s, repo, schema, n).counts),
    decreases n,
{
    if n > 0 {
        lemma_tables(s, repo, schema, (n - 1) as nat);
        let t = with_tables(s, repo, schema, (n - 1) as nat);
        let table = schema.tables@[n - 1];
        let node = table_fact(repo, schema.path@, table.name@);
        model::lemma_grows_node(s.graph, t.graph, node);
        let u = DataState {
            graph: t.graph.with_node(node),
            counts: DataCounts { tables: t.counts.tables + 1, ..t.counts },
        };
        lemma_columns(u, repo, schema.path@, table, table.columns@.len());
        let e = with_columns(u, repo, schema.path@, table, table.columns@.len());
        model::lemma_grows_trans(s.graph, u.graph, e.graph);
        assert forall|i: int| 0 <= i < n implies shows_table(
            e.graph,
            repo,
            schema.path@,
            #[trigger] schema.tables@[i],
        ) by {
            if i < n - 1 {
                lemma_shows_kept(t.graph, e.graph, repo, schema.path@, schema.tables@[i]);
            }
        }
    }
}

proof fn lemma_schema_nodes(s: DataState, repo: Seq<char>, schemas: Seq<SchemaModel>, n: nat)
    requires
        n <= schemas.len(),
        balanced(s.counts),
    ensures
        model::grows(s.graph, with_schema_nodes(s, repo, schemas, n).graph),
        shows_schemas(with_schema_nodes(s, repo, schemas, n).graph, repo, schemas, n),
        balanced(with_schema_nodes(s, repo, schemas, n).counts),
    decreases n,
{
    if n > 0 {
        lemma_schema_nodes(s, repo, schemas, (n - 1) as nat);
        let t = with_schema_nodes(s, repo, schemas, (n - 1) as nat);
        let schema = schemas[n - 1];
        lemma_tables(t, repo, schema, schema.tables@.len());
        let e = with_tables(t, repo, schema, schema.tables@.len());
        model::lemma_grows_trans(s.graph, t.graph, e.graph);
        lemma_schemas_kept(t.graph, e.graph, repo, schemas, (n - 1) as nat);
    }
}

proof fn lemma_table_from(g: GraphView, repo: Seq<char>, schemas: Seq<SchemaModel>, table: Seq<char>, from: int)
    requires
        0 <= from,
        shows_schemas(g, repo, schemas, schemas.len()),
    ensures
        table_from(repo, schemas, table, from) matches Some(u) ==> g.has(u),
    decreases schemas.len() - from,
{
    if from < schemas.len() {
        lemma_table_from(g, repo, schemas, table, from + 1);
        if declares_table(schemas[from], table) {
            let i = choose|i: int|
                0 <= i < schemas[from].tables@.len() && (#[trigger] schemas[from].tables@[i]).name@ == table;
            assert(shows_tables(g, repo, schemas[from], schemas[from].tables@.len()));
            assert(shows_table(g, repo, schemas[from].path@, schemas[from].tables@[i]));
        }
    }
}

proof fn lemma_column_from(
    g: GraphView,
    repo: Seq<char>,
    schemas: Seq<SchemaModel>,
    table: Seq<char>,
    column: Seq<char>,
    from: int,
)
    requires
        0 <= from,
        shows_schemas(g, repo, schemas, schemas.len()),
    ensures
        column_from(repo, schemas, table, column, from) matches Some(u) ==> g.has(u),
    decreases schemas.len() - from,
{
    if from < schemas.len() {
        lemma_column_from(g, repo, schemas, table, column, from + 1);
        if declares_column(schemas[from], table, column) {
            let i = choose|i: int|
                0 <= i < schemas[from].tables@.len() && (#[trigger] schemas[from].tables@[i]).name@ == table
                    && has_column(schemas[from].tables@[i], column);
            let t = schemas[from].tables@[i];
            assert(shows_tables(g, repo, schemas[from], schemas[from].tables@.len()));
            assert(shows_table(g, repo, schemas[from].path@, schemas[from].tables@[i]));
            let j = choose|j: int| 0 <= j < t.columns@.len() && (#[trigger] t.columns@[j]).name@ == column;
            assert(g.has(column_id(repo, schemas[from].path@, t.name@, t.columns@[j].name@)));
        }
    }
}

proof fn lemma_column_edges(g: GraphView, repo: Seq<char>, schema: Seq<char>, table: TableDef, n: nat)
    requires
        n <= table.columns@.len(),
        shows_table(g, repo, schema, table),
    ensures
        model::grows(g, with_column_edges(g, repo, schema, table, n)),
    decreases n,
{
    if n > 0 {
        lemma_column_edges(g, repo, schema, table, (n - 1) as nat);
        let h = with_column_edges(g, repo, schema, table, (n - 1) as nat);
        assert(g.has(column_id(repo, schema, table.name@, table.columns@[n - 1].name@)));
        model::lemma_grows_edge(
            g,
            h,
            model::edge_of(
                table_id(repo, schema, table.name@),
                column_id(repo, schema, table.name@, table.columns@[n - 1].name@),
                EdgeKind::HasColumn,
                Provenance::Extracted,
                CONF_DATA_FACT,
            ),
        );
    }
}

proof fn lemma_foreign_keys(
    s: DataState,
    repo: Seq<char>,
    schemas: Seq<SchemaModel>,
    schema: Seq<char>,
    table: TableDef,
    n: nat,
)
    requires
        n <= table.foreign_keys@.len(),
        shows_schemas(s.graph, repo, schemas, schemas.len()),
        balanced(s.counts),
    ensures
        model::grows(s.graph, with_foreign_keys(s, repo, schemas, schema, table, n).graph),
        balanced(with_foreign_keys(s, repo, schemas, schema, table, n).counts),
    decreases n,
{
    if n > 0 {
        lemma_foreign_keys(s, repo, schemas, schema, table, (n - 1) as nat);
        let t = with_foreign_keys(s, repo, schemas, schema, table, (n - 1) as nat);
        let fk = table.foreign_keys@[n - 1];
        lemma_column_from(s.graph, repo, schemas, fk.ref_table@, fk.ref_column@, 0);
        match column_from(repo, schemas, fk.ref_table@, fk.ref_column@, 0) {
            Some(dst) => {
                model::lemma_grows_edge(
                    s.graph,
                    t.graph,
                    model::edge_of(
                        column_id(repo, schema, table.name@, fk.column@),
                        dst,
                        EdgeKind::ForeignKey,
                        Provenance::Extracted,
                        CONF_DATA_FACT,
                    ),
                );
            },
            None => {},
        }
    }
}

proof fn lemma_table_edges(s: DataState, repo: Seq<char>, schemas: Seq<SchemaModel>, schema: SchemaModel, n: nat)
    requires
        n <= schema.tables@.len(),
        shows_schemas(s.graph, repo, schemas, schemas.len()),
        shows_tables(s.graph, repo, schema, schema.tables@.len()),
        balanced(s.counts),
    ensures
        model::grows(s.graph, with_table_edges(s, repo, schemas, schema, n).graph),
        balanced(with_table_edges(s, repo, schemas, schema, n).counts),
    decreases n,
{
    if n > 0 {
        lemma_table_edges(s, repo, schemas, schema, (n - 1) as nat);
        let t = with_table_edges(s, repo, schemas, schema, (n - 1) as nat);
        let table = schema.tables@[n - 1];
        assert(shows_table(s.graph, repo, schema.path@, schema.tables@[n - 1]));
        lemma_shows_kept(s.graph, t.graph, repo, schema.path@, table);
        lemma_column_edges(t.graph, repo, schema.path@, table, table.columns@.len());
        let u = DataState {
            graph: with_column_edges(t.graph, repo, schema.path@, table, table.columns@.len()),
            counts: t.counts,
        };
        model::lemma_grows_trans(s.graph, t.graph, u.graph);
        lemma_schemas_kept(s.graph, u.graph, repo, schemas, schemas.len());
        lemma_foreign_keys(u, repo, schemas, schema.path@, table, table.foreign_keys@.len());
        model::lemma_grows_trans(
            s.graph,
            u.graph,
            with_foreign_keys(u, repo, schemas, schema.path@, table, table.foreign_keys@.len()).graph,
        );
    }
}

proof fn lemma_schema_edges(s: DataState, repo: Seq<char>, schemas: Seq<SchemaModel>, n: nat)
    requires
        n <= schemas.len(),
        shows_schemas(s.graph, repo, schemas, schemas.len()),
        balanced(s.counts),
    ensures
        model::grows(s.graph, with_schema_edges(s, repo, schemas, n).graph),
        balanced(with_schema_edges(s, repo, schemas, n).counts),
    decreases n,
{
    if n > 0 {
        lemma_schema_edges(s, repo, schemas, (n - 1) as nat);
        let t = with_schema_edges(s, repo, schemas, (n - 1) as nat);
        let schema = schemas[n - 1];
        lemma_schemas_kept(s.graph, t.graph, repo, schemas, schemas.len());
        assert(shows_tables(t.graph, repo, schemas[n - 1], schemas[n - 1].tables@.len()));
        lemma_table_edges(t, repo, schemas, schema, schema.tables@.len());
        model::lemma_grows_trans(
            s.graph,
            t.graph,
            with_table_edges(t, repo, schemas, schema, schema.tables@.len()).graph,
        );
    }
}

proof fn lemma_refs(
    s: DataState,
    repo: Seq<char>,
    schemas: Seq<SchemaModel>,
    lang: Seq<char>,
    path: Seq<char>,
    cand: SqlCandidate,
    n: nat,
)
    requires
        n <= cand.refs@.len(),
        shows_schemas(s.graph, repo, schemas, schemas.len()),
        balanced(s.counts),
    ensures
        model::grows(s.graph, with_refs(s, repo, schemas, lang, path, cand, n).graph),
        balanced(with_refs(s, repo, schemas, lang, path, cand, n).counts),
    decreases n,
{
    if n > 0 {
        lemma_refs(s, repo, schemas, lang, path, cand, (n - 1) as nat);
        let t = with_refs(s, repo, schemas, lang, path, cand, (n - 1) as nat);
        let tref = cand.refs@[n - 1];
        lemma_table_from(s.graph, repo, schemas, tref.table@, 0);
        match table_from(repo, schemas, tref.table@, 0) {
            Some(dst) => {
                model::lemma_grows_edge(
                    s.graph,
                    t.graph,
                    model::edge_of(
                        code_node(t.graph, lang, repo, path, cand.enclosing_fqn@),
                        dst,
                        access_kind(tref.access),
                        Provenance::Extracted,
                        CONF_DATA_FACT,
                    ),
                );
            },
            None => {},
        }
    }
}

proof fn lemma_candidates(
    s: DataState,
    repo: Seq<char>,
    schemas: Seq<SchemaModel>,
    lang: Seq<char>,
    path: Seq<char>,
    cands: Seq<SqlCandidate>,
    n: nat,
)
    requires
        n <= cands.len(),
        shows_schemas(s.graph, repo, schemas, schemas.len()),
        balanced(s.counts),
    ensures
        model::grows(s.graph, with_candidates(s, repo, schemas, lang, path, cands, n).graph),
        balanced(with_candidates(s, repo, schemas, lang, path, cands, n).counts),
    decreases n,
{
    if n > 0 {
        lemma_candidates(s, repo, schemas, lang, path, cands, (n - 1) as nat);
        let t = with_candidates(s, repo, schemas, lang, path, cands, (n - 1) as nat);
        let cand = cands[n - 1];
        lemma_schemas_kept(s.graph, t.graph, repo, schemas, schemas.len());
        lemma_refs(t, repo, schemas, lang, path, cand, cand.refs@.len());
        model::lemma_grows_trans(
            s.graph,
            t.graph,
            with_refs(t, repo, schemas, lang, path, cand, cand.refs@.len()).graph,
        );
    }
}

proof fn lemma_code_sql(s: DataState, repo: Seq<char>, schemas: Seq<SchemaModel>, files: Seq<SqlFileView>, n: nat)
    requires
        n <= files.len(),
        shows_schemas(s.graph, repo, schemas, schemas.len()),
        balanced(s.counts),
    ensures
        model::grows(s.graph, with_code_sql(s, repo, schemas, files, n).graph),
        balanced(with_code_sql(s, repo, schemas, files, n).counts),
    decreases n,
{
    if n > 0 {
        lemma_code_sql(s, repo, schemas, files, (n - 1) as nat);
        let t = with_code_sql(s, repo, schemas, files, (n - 1) as nat);
        let f = files[n - 1];
        lemma_schemas_kept(s.graph, t.graph, repo, schemas, schemas.len());
        lemma_candidates(t, repo, schemas, f.lang, f.path, f.candidates, f.candidates.len());
        model::lemma_grows_trans(
            s.graph,
            t.graph,
            with_candidates(t, repo, schemas, f.lang, f.path, f.candidates, f.candidates.len()).graph,
        );
    }
}

proof fn lemma_hints(
    s: DataState,
    repo: Seq<char>,
    schemas: Seq<SchemaModel>,
    lang: Seq<char>,
    path: Seq<char>,
    hints: Seq<OrmModelHint>,
    n: nat,
)
    requires
        n <= hints.len(),
        shows_schemas(s.graph, repo, schemas, schemas.len()),
        balanced(s.counts),
    ensures
        model::grows(s.graph, with_hints(s, repo, schemas, lang, path, hints, n).graph),
        balanced(with_hints(s, repo, schemas, lang, path, hints, n).counts),
    decreases n,
{
    if n > 0 {
        lemma_hints(s, repo, schemas, lang, path, hints, (n - 1) as nat);
        let t = with_hints(s, repo, schemas, lang, path, hints, (n - 1) as nat);
        let hint = hints[n - 1];
        let src = model::uid_text(lang, repo, path, hint.model_fqn@, ""@);
        lemma_table_from(s.graph, repo, schemas, hint.table_name@, 0);
        match table_from(repo, schemas, hint.table_name@, 0) {
            Some(dst) => {
                if t.graph.has(src) {
                    model::lemma_grows_edge(
                        s.graph,
                        t.graph,
                        model::edge_of(src, dst, EdgeKind::MapsTo, Provenance::Extracted, CONF_ORM_EXPLICIT),
                    );
                }
            },
            None => {},
        }
    }
}

proof fn lemma_code_orm(s: DataState, repo: Seq<char>, schemas: Seq<SchemaModel>, files: Seq<OrmFileView>, n: nat)
    requires
        n <= files.len(),
        shows_schemas(s.graph, repo, schemas, schemas.len()),
        balanced(s.counts),
    ensures
        model::grows(s.graph, with_code_orm(s, repo, schemas, files, n).graph),
        balanced(with_code_orm(s, repo, schemas, files, n).counts),
    decreases n,
{
    if n > 0 {
        lemma_code_orm(s, repo, schemas, files, (n - 1) as nat);
        let t = with_code_orm(s, repo, schemas, files, (n - 1) as nat);
        let f = files[n - 1];
        lemma_schemas_kept(s.graph, t.graph, repo, schemas, schemas.len());
        lemma_hints(t, repo, schemas, f.lang, f.path, f.hints, f.hints.len());
        model::lemma_grows_trans(
            s.graph,
            t.graph,
            with_hints(t, repo, schemas, f.lang, f.path, f.hints, f.hints.len()).graph,
        );
    }
}

/// The data plane only adds: what stood in the graph stays, every edge that it adds is a fact in
/// its band and leads to a table or a column that is there, and no name that is not declared gives
/// an edge. Every foreign key and every model class is counted as linked or as unresolved.
pub proof fn law_data_plane_sound(
    g: GraphView,
    repo: Seq<char>,
    schemas: Seq<SchemaModel>,
    sql: Seq<SqlFileView>,
    orm: Seq<OrmFileView>,
)
    ensures
        model::grows(g, data_plane(g, repo, schemas, sql, orm).graph),
        shows_schemas(data_plane(g, repo, schemas, sql, orm).graph, repo, schemas, schemas.len()),
        balanced(data_plane(g, repo, schemas, sql, orm).counts),
{
    let s = DataState { graph: g, counts: DataCounts::zero() };
    lemma_schema_nodes(s, repo, schemas, schemas.len());
    let a = with_schema_nodes(s, repo, schemas, schemas.len());
    lemma_schema_edges(a, repo, schemas, schemas.len());
    let b = with_schema_edges(a, repo, schemas, schemas.len());
    model::lemma_grows_trans(g, a.graph, b.graph);
    lemma_schemas_kept(a.graph, b.graph, repo, schemas, schemas.len());
    lemma_code_sql(b, repo, schemas, sql, sql.len());
    let c = with_code_sql(b, repo, schemas, sql, sql.len());
    model::lemma_grows_trans(g, b.graph, c.graph);
    lemma_schemas_kept(b.graph, c.graph, repo, schemas, schemas.len());
    lemma_code_orm(c, repo, schemas, orm, orm.len());
    let d = with_code_orm(c, repo, schemas, orm, orm.len());
    model::lemma_grows_trans(g, c.graph, d.graph);
    lemma_schemas_kept(c.graph, d.graph, repo, schemas, schemas.len());
}

/// The number of columns of the first `n` tables.
pub open spec fn column_count(tables: Seq<TableDef>, n: nat) -> nat
    decreases n,
{
    if n == 0 {
        0
    } else {
        column_count(tables, (n - 1) as nat) + tables[n - 1].columns@.len()
    }
}

/// The number of foreign keys of the first `n` tables.
pub open spec fn key_count(tables: Seq<TableDef>, n: nat) -> nat
    decreases n,
{
    if n == 0 {
        0
    } else {
        key_count(tables, (n - 1) as nat) + tables[n - 1].foreign_keys@.len()
    }
}

/// The numbers of tables, columns and foreign keys of the first `n` schemas.
pub open spec fn schema_counts(schemas: Seq<SchemaModel>, n: nat) -> (nat, nat, nat)
    decreases n,
{
    if n == 0 {
        (0, 0, 0)
    } else {
        let rest = schema_counts(schemas, (n - 1) as nat);
        let tables = schemas[n - 1].tables@;
        (
            rest.0 + tables.len(),
            rest.1 + column_count(tables, tables.len()),
            rest.2 + key_count(tables, tables.len()),
        )
    }
}

/// How many of the first `n` table references of a SQL literal have this access.
pub open spec fn refs_count(cand: SqlCandidate, access: SqlAccess, n: nat) -> nat
    decreases n,
{
    if n == 0 {
        0
    } else {
        refs_count(cand, access, (n - 1) as nat) + if cand.refs@[n - 1].access == access { 1nat } else { 0 }
    }
}

/// How many table references of the first `n` SQL literals of a file have this access.
pub open spec fn candidates_count(cands: Seq<SqlCandidate>, access: SqlAccess, n: nat) -> nat
    decreases n,
{
    if n == 0 {
        0
    } else {
        candidates_count(cands, access, (n - 1) as nat) + refs_count(
            cands[n - 1],
            access,
            cands[n - 1].refs@.len(),
        )
    }
}

/// How many table references of the first `n` files have this access.
pub open spec fn access_count(files: Seq<SqlFileView>, access: SqlAccess, n: nat) -> nat
    decreases n,
{
    if n == 0 {
        0
    } else {
        access_count(files, access, (n - 1) as nat) + candidates_count(
            files[n - 1].candidates,
            access,
            files[n - 1].candidates.len(),
        )
    }
}

/// The number of model classes of the first `n` files.
pub open spec fn hint_count(files: Seq<OrmFileView>, n: nat) -> nat
    decreases n,
{
    if n == 0 {
        0
    } else {
        hint_count(files, (n - 1) as nat) + files[n - 1].hints.len()
    }
}

/// Whether counts tell of so many tables, columns, foreign keys, reads, writes and model classes, each
/// of the last four counted as linked or as unresolved.
pub open spec fn tell(c: DataCounts, declared: (nat, nat, nat), reads: nat, writes: nat, models: nat) -> bool {
    &&& (c.tables, c.columns, c.fks) == declared
    &&& c.fks == c.fks_linked + c.fks_unresolved
    &&& c.reads_linked + c.reads_unresolved == reads
    &&& c.writes_linked + c.writes_unresolved == writes
    &&& c.models == models
    &&& c.models == c.models_linked + c.models_unresolved
}

proof fn lemma_columns_told(s: DataState, repo: Seq<char>, schema: Seq<char>, table: TableDef, n: nat)
    ensures
        with_columns(s, repo, schema, table, n).counts == (DataCounts { columns: s.counts.columns + n, ..s.counts }),
    decreases n,
{
    if n > 0 {
        lemma_columns_told(s, repo, schema, table, (n - 1) as nat);
    }
}

proof fn lemma_tables_told(s: DataState, repo: Seq<char>, schema: SchemaModel, n: nat)
    ensures
        with_tables(s, repo, schema, n).counts == (DataCounts {
            tables: s.counts.tables + n,
            columns: s.counts.columns + column_count(schema.tables@, n),
            ..s.counts
        }),
    decreases n,
{
    if n > 0 {
        lemma_tables_told(s, repo, schema, (n - 1) as nat);
        let t = with_tables(s, repo, schema, (n - 1) as nat);
        let table = schema.tables@[n - 1];
        let u = DataState {
            graph: t.graph.with_node(table_fact(repo, schema.path@, table.name@)),
            counts: DataCounts { tables: t.counts.tables + 1, ..t.counts },
        };
        lemma_columns_told(u, repo, schema.path@, table, table.columns@.len());
    }
}

proof fn lemma_schema_nodes_told(s: DataState, repo: Seq<char>, schemas: Seq<SchemaModel>, n: nat)
    ensures
        with_schema_nodes(s, repo, schemas, n).counts == (DataCounts {
            tables: s.counts.tables + schema_counts(schemas, n).0,
            columns: s.counts.columns + schema_counts(schemas, n).1,
            ..s.counts
        }),
    decreases n,
{
    if n > 0 {
        lemma_schema_nodes_told(s, repo, schemas, (n - 1) as nat);
        let schema = schemas[n - 1];
        lemma_tables_told(with_schema_nodes(s, repo, schemas, (n - 1) as nat), repo, schema, schema.tables@.len());
    }
}

proof fn lemma_keys_told(
    s: DataState,
    repo: Seq<char>,
    schemas: Seq<SchemaModel>,
    schema: Seq<char>,
    table: TableDef,
    n: nat,
    d: (nat, nat, nat),
)
    requires
        tell(s.counts, d, 0, 0, 0),
    ensures
        tell(with_foreign_keys(s, repo, schemas, schema, table, n).counts, (d.0, d.1, d.2 + n), 0, 0, 0),
    decreases n,
{
    if n > 0 {
        lemma_keys_told(s, repo, schemas, schema, table, (n - 1) as nat, d);
    }
}

proof fn lemma_table_edges_told(
    s: DataState,
    repo: Seq<char>,
    schemas: Seq<SchemaModel>,
    schema: SchemaModel,
    n: nat,
    d: (nat, nat, nat),
)
    requires
        tell(s.counts, d, 0, 0, 0),
    ensures
        tell(
            with_table_edges(s, repo, schemas, schema, n).counts,
            (d.0, d.1, d.2 + key_count(schema.tables@, n)),
            0,
            0,
            0,
        ),
    decreases n,
{
    if n > 0 {
        lemma_table_edges_told(s, repo, schemas, schema, (n - 1) as nat, d);
        let t = with_table_edges(s, repo, schemas, schema, (n - 1) as nat);
        let table = schema.tables@[n - 1];
        let u = DataState {
            graph: with_column_edges(t.graph, repo, schema.path@, table, table.columns@.len()),
            counts: t.counts,
        };
        let e = (d.0, d.1, d.2 + key_count(schema.tables@, (n - 1) as nat));
        lemma_keys_told(u, repo, schemas, schema.path@, table, table.foreign_keys@.len(), e);
    }
}

proof fn lemma_schema_edges_told(
    s: DataState,
    repo: Seq<char>,
    schemas: Seq<SchemaModel>,
    n: nat,
    d: (nat, nat, nat),
)
    requires
        tell(s.counts, d, 0, 0, 0),
    ensures
        tell(
            with_schema_edges(s, repo, schemas, n).counts,
            (d.0, d.1, d.2 + schema_counts(schemas, n).2),
            0,
            0,
            0,
        ),
    decreases n,
{
    if n > 0 {
        lemma_schema_edges_told(s, repo, schemas, (n - 1) as nat, d);
        let t = with_schema_edges(s, repo, schemas, (n - 1) as nat);
        let schema = schemas[n - 1];
        let e = (d.0, d.1, d.2 + schema_counts(schemas, (n - 1) as nat).2);
        lemma_table_edges_told(t, repo, schemas, schema, schema.tables@.len(), e);
    }
}

proof fn lemma_refs_told(
    s: DataState,
    repo: Seq<char>,
    schemas: Seq<SchemaModel>,
    lang: Seq<char>,
    path: Seq<char>,
    cand: SqlCandidate,
    n: nat,
    d: (nat, nat, nat),
    reads: nat,
    writes: nat,
)
    requires
        tell(s.counts, d, reads, writes, 0),
    ensures
        tell(
            with_refs(s, repo, schemas, lang, path, cand, n).counts,
            d,
            reads + refs_count(cand, SqlAccess::Read, n),
            writes + refs_count(cand, SqlAccess::Write, n),
            0,
        ),
    decreases n,
{
    if n > 0 {
        lemma_refs_told(s, repo, schemas, lang, path, cand, (n - 1) as nat, d, reads, writes);
    }
}

proof fn lemma_candidates_told(
    s: DataState,
    repo: Seq<char>,
    schemas: Seq<SchemaModel>,
    lang: Seq<char>,
    path: Seq<char>,
    cands: Seq<SqlCandidate>,
    n: nat,
    d: (nat, nat, nat),
    reads: nat,
    writes: nat,
)
    requires
        tell(s.counts, d, reads, writes, 0),
    ensures
        tell(
            with_candidates(s, repo, schemas, lang, path, cands, n).counts,
            d,
            reads + candidates_count(cands, SqlAccess::Read, n),
            writes + candidates_count(cands, SqlAccess::Write, n),
            0,
        ),
    decreases n,
{
    if n > 0 {
        let m = (n - 1) as nat;
        lemma_candidates_told(s, repo, schemas, lang, path, cands, m, d, reads, writes);
        let t = with_candidates(s, repo, schemas, lang, path, cands, m);
        let r = reads + candidates_count(cands, SqlAccess::Read, m);
        let w = writes + candidates_count(cands, SqlAccess::Write, m);
        lemma_refs_told(t, repo, schemas, lang, path, cands[n - 1], cands[n - 1].refs@.len(), d, r, w);
    }
}

proof fn lemma_code_sql_told(
    s: DataState,
    repo: Seq<char>,
    schemas: Seq<SchemaModel>,
    files: Seq<SqlFileView>,
    n: nat,
    d: (nat, nat, nat),
)
    requires
        tell(s.counts, d, 0, 0, 0),
    ensures
        tell(
            with_code_sql(s, repo, schemas, files, n).counts,
            d,
            access_count(files, SqlAccess::Read, n),
            access_count(files, SqlAccess::Write, n),
            0,
        ),
    decreases n,
{
    if n > 0 {
        let m = (n - 1) as nat;
        lemma_code_sql_told(s, repo, schemas, files, m, d);
        let t = with_code_sql(s, repo, schemas, files, m);
        let f = files[n - 1];
        let r = access_count(files, SqlAccess::Read, m);
        let w = access_count(files, SqlAccess::Write, m);
        lemma_candidates_told(t, repo, schemas, f.lang, f.path, f.candidates, f.candidates.len(), d, r, w);
    }
}

proof fn lemma_hints_told(
    s: DataState,
    repo: Seq<char>,
    schemas: Seq<SchemaModel>,
    lang: Seq<char>,
    path: Seq<char>,
    hints: Seq<OrmModelHint>,
    n: nat,
    d: (nat, nat, nat),
    reads: nat,
    writes: nat,
    models: nat,
)
    requires
        tell(s.counts, d, reads, writes, models),
    ensures
        tell(with_hints(s, repo, schemas, lang, path, hints, n).counts, d, reads, writes, models + n),
    decreases n,
{
    if n > 0 {
        lemma_hints_told(s, repo, schemas, lang, path, hints, (n - 1) as nat, d, reads, writes, models);
    }
}

proof fn lemma_code_orm_told(
    s: DataState,
    repo: Seq<char>,
    schemas: Seq<SchemaModel>,
    files: Seq<OrmFileView>,
    n: nat,
    d: (nat, nat, nat),
    reads: nat,
    writes: nat,
)
    requires
        tell(s.counts, d, reads, writes, 0),
    ensures
        tell(with_code_orm(s, repo, schemas, files, n).counts, d, reads, writes, hint_count(files, n)),
    decreases n,
{
    if n > 0 {
        let m = (n - 1) as nat;
        lemma_code_orm_told(s, repo, schemas, files, m, d, reads, writes);
        let t = with_code_orm(s, repo, schemas, files, m);
        let f = files[n - 1];
        let c = hint_count(files, m);
        lemma_hints_told(t, repo, schemas, f.lang, f.path, f.hints, f.hints.len(), d, reads, writes, c);
    }
}

/// Nothing escapes the counts: every table and every column of the schemas is counted; every foreign
/// key, every table that a SQL literal reads or writes, and every model class is counted as linked or
/// as unresolved.
pub proof fn law_data_counts_complete(
    g: GraphView,
    repo: Seq<char>,
    schemas: Seq<SchemaModel>,
    sql: Seq<SqlFileView>,
    orm: Seq<OrmFileView>,
)
    ensures
        tell(
            data_plane(g, repo, schemas, sql, orm).counts,
            schema_counts(schemas, schemas.len()),
            access_count(sql, SqlAccess::Read, sql.len()),
            access_count(sql, SqlAccess::Write, sql.len()),
            hint_count(orm, orm.len()),
        ),
{
    let s = DataState { graph: g, counts: DataCounts::zero() };
    let d = schema_counts(schemas, schemas.len());
    lemma_schema_nodes_told(s, repo, schemas, schemas.len());
    let a = with_schema_nodes(s, repo, schemas, schemas.len());
    lemma_schema_edges_told(a, repo, schemas, schemas.len(), (d.0, d.1, 0));
    let b = with_schema_edges(a, repo, schemas, schemas.len());
    lemma_code_sql_told(b, repo, schemas, sql, sql.len(), d);
    let c = with_code_sql(b, repo, schemas, sql, sql.len());
    lemma_code_orm_told(
        c,
        repo,
        schemas,
        orm,
        orm.len(),
        d,
        access_count(sql, SqlAccess::Read, sql.len()),
        access_count(sql, SqlAccess::Write, sql.len()),
    );
}

/// Without schemas the data plane leaves the graph as it is, whatever SQL and whatever model
/// classes the code holds.
pub proof fn law_data_plane_additive(g: GraphView, repo: Seq<char>, sql: Seq<SqlFileView>, orm: Seq<OrmFileView>)
    ensures
        data_plane(g, repo, Seq::empty(), sql, orm).graph == g,
{
    let s = DataState { graph: g, counts: DataCounts::zero() };
    lemma_no_sql(s, repo, sql, sql.len());
    let c = with_code_sql(s, repo, Seq::empty(), sql, sql.len());
    lemma_no_orm(c, repo, orm, orm.len());
}

proof fn lemma_no_sql(s: DataState, repo: Seq<char>, files: Seq<SqlFileView>, n: nat)
    ensures
        with_code_sql(s, repo, Seq::empty(), files, n).graph == s.graph,
    decreases n,
{
    if n > 0 {
        lemma_no_sql(s, repo, files, (n - 1) as nat);
        let f = files[n - 1];
        let t = with_code_sql(s, repo, Seq::empty(), files, (n - 1) as nat);
        lemma_no_candidates(t, repo, f.lang, f.path, f.candidates, f.candidates.len());
    }
}

proof fn lemma_no_candidates(
    s: DataState,
    repo: Seq<char>,
    lang: Seq<char>,
    path: Seq<char>,
    cands: Seq<SqlCandidate>,
    n: nat,
)
    ensures
        with_candidates(s, repo, Seq::empty(), lang, path, cands, n).graph == s.graph,
    decreases n,
{
    if n > 0 {
        lemma_no_candidates(s, repo, lang, path, cands, (n - 1) as nat);
        let t = with_candidates(s, repo, Seq::empty(), lang, path, cands, (n - 1) as nat);
        lemma_no_refs(t, repo, lang, path, cands[n - 1], cands[n - 1].refs@.len());
    }
}

proof fn lemma_no_refs(s: DataState, repo: Seq<char>, lang: Seq<char>, path: Seq<char>, cand: SqlCandidate, n: nat)
    ensures
        with_refs(s, repo, Seq::empty(), lang, path, cand, n).graph == s.graph,
    decreases n,
{
    if n > 0 {
        lemma_no_refs(s, repo, lang, path, cand, (n - 1) as nat);
        assert(table_from(repo, Seq::empty(), cand.refs@[n - 1].table@, 0) is None);
    }
}

proof fn lemma_no_orm(s: DataState, repo: Seq<char>, files: Seq<OrmFileView>, n: nat)
    ensures
        with_code_orm(s, repo, Seq::empty(), files, n).graph == s.graph,
    decreases n,
{
    if n > 0 {
        lemma_no_orm(s, repo, files, (n - 1) as nat);
        let f = files[n - 1];
        let t = with_code_orm(s, repo, Seq::empty(), files, (n - 1) as nat);
        lemma_no_hints(t, repo, f.lang, f.path, f.hints, f.hints.len());
    }
}

proof fn lemma_no_hints(
    s: DataState,
    repo: Seq<char>,
    lang: Seq<char>,
    path: Seq<char>,
    hints: Seq<OrmModelHint>,
    n: nat,
)
    ensures
        with_hints(s, repo, Seq::empty(), lang, path, hints, n).graph == s.graph,
    decreases n,
{
    if n > 0 {
        lemma_no_hints(s, repo, lang, path, hints, (n - 1) as nat);
        assert(table_from(repo, Seq::empty(), hints[n - 1].table_name@, 0) is None);
    }
}

// ----------------------------------------------------------------------------------------------
// Building twice
// ----------------------------------------------------------------------------------------------

/// The nodes of the columns of a table.
pub open spec fn column_nodes(repo: Seq<char>, schema: Seq<char>, table: TableDef) -> Seq<NodeView> {
    Seq::new(table.columns@.len(), |i: int| column_fact(repo, schema, table.name@, table.columns@[i].name@))
}

/// The nodes of the first `n` tables of a schema, each before its columns.
pub open spec fn table_nodes(repo: Seq<char>, schema: SchemaModel, n: nat) -> Seq<NodeView>
    decreases n,
{
    if n == 0 {
        Seq::empty()
    } else {
        let table = schema.tables@[n - 1];
        table_nodes(repo, schema, (n - 1) as nat) + (seq![table_fact(repo, schema.path@, table.name@)] + column_nodes(
            repo,
            schema.path@,
            table,
        ))
    }
}

/// The nodes of the first `n` schemas.
pub open spec fn schema_nodes(repo: Seq<char>, schemas: Seq<SchemaModel>, n: nat) -> Seq<NodeView>
    decreases n,
{
    if n == 0 {
        Seq::empty()
    } else {
        schema_nodes(repo, schemas, (n - 1) as nat) + table_nodes(repo, schemas[n - 1], schemas[n - 1].tables@.len())
    }
}

proof fn lemma_columns_as_nodes(s: DataState, repo: Seq<char>, schema: Seq<char>, table: TableDef, n: nat)
    requires
        n <= table.columns@.len(),
    ensures
        with_columns(s, repo, schema, table, n).graph == model::with_nodes(
            s.graph,
            column_nodes(repo, schema, table),
            n,
        ),
    decreases n,
{
    if n > 0 {
        lemma_columns_as_nodes(s, repo, schema, table, (n - 1) as nat);
    }
}

proof fn lemma_tables_as_nodes(s: DataState, repo: Seq<char>, schema: SchemaModel, n: nat)
    requires
        n <= schema.tables@.len(),
    ensures
        with_tables(s, repo, schema, n).graph == model::with_nodes(
            s.graph,
            table_nodes(repo, schema, n),
            table_nodes(repo, schema, n).len(),
        ),
    decreases n,
{
    if n > 0 {
        lemma_tables_as_nodes(s, repo, schema, (n - 1) as nat);
        let t = with_tables(s, repo, schema, (n - 1) as nat);
        let table = schema.tables@[n - 1];
        let one = seq![table_fact(repo, schema.path@, table.name@)];
        let columns = column_nodes(repo, schema.path@, table);
        let u = DataState {
            graph: t.graph.with_node(one[0]),
            counts: DataCounts { tables: t.counts.tables + 1, ..t.counts },
        };
        assert(model::with_nodes(t.graph, one, 0) == t.graph);
        assert(model::with_nodes(t.graph, one, 1) == u.graph);
        lemma_columns_as_nodes(u, repo, schema.path@, table, table.columns@.len());
        model::lemma_with_nodes_append(t.graph, one, columns, columns.len());
        let rest = table_nodes(repo, schema, (n - 1) as nat);
        model::lemma_with_nodes_append(s.graph, rest, one + columns, (one + columns).len());
    }
}

proof fn lemma_schemas_as_nodes(s: DataState, repo: Seq<char>, schemas: Seq<SchemaModel>, n: nat)
    requires
        n <= schemas.len(),
    ensures
        with_schema_nodes(s, repo, schemas, n).graph == model::with_nodes(
            s.graph,
            schema_nodes(repo, schemas, n),
            schema_nodes(repo, schemas, n).len(),
        ),
    decreases n,
{
    if n > 0 {
        lemma_schemas_as_nodes(s, repo, schemas, (n - 1) as nat);
        let schema = schemas[n - 1];
        let more = table_nodes(repo, schema, schema.tables@.len());
        lemma_tables_as_nodes(
            with_schema_nodes(s, repo, schemas, (n - 1) as nat),
            repo,
            schema,
            schema.tables@.len(),
        );
        model::lemma_with_nodes_append(s.graph, schema_nodes(repo, schemas, (n - 1) as nat), more, more.len());
    }
}

proof fn lemma_columns_counted(s: DataState, t: DataState, repo: Seq<char>, schema: Seq<char>, table: TableDef, n: nat)
    requires
        s.counts == t.counts,
    ensures
        with_columns(s, repo, schema, table, n).counts == with_columns(t, repo, schema, table, n).counts,
    decreases n,
{
    if n > 0 {
        lemma_columns_counted(s, t, repo, schema, table, (n - 1) as nat);
    }
}

proof fn lemma_tables_counted(s: DataState, t: DataState, repo: Seq<char>, schema: SchemaModel, n: nat)
    requires
        s.counts == t.counts,
    ensures
        with_tables(s, repo, schema, n).counts == with_tables(t, repo, schema, n).counts,
    decreases n,
{
    if n > 0 {
        lemma_tables_counted(s, t, repo, schema, (n - 1) as nat);
        let table = schema.tables@[n - 1];
        let a = with_tables(s, repo, schema, (n - 1) as nat);
        let b = with_tables(t, repo, schema, (n - 1) as nat);
        let node = table_fact(repo, schema.path@, table.name@);
        lemma_columns_counted(
            DataState {
                graph: a.graph.with_node(node),
                counts: DataCounts { tables: a.counts.tables + 1, ..a.counts },
            },
            DataState {
                graph: b.graph.with_node(node),
                counts: DataCounts { tables: b.counts.tables + 1, ..b.counts },
            },
            repo,
            schema.path@,
            table,
            table.columns@.len(),
        );
    }
}

proof fn lemma_schemas_counted(s: DataState, t: DataState, repo: Seq<char>, schemas: Seq<SchemaModel>, n: nat)
    requires
        s.counts == t.counts,
    ensures
        with_schema_nodes(s, repo, schemas, n).counts == with_schema_nodes(t, repo, schemas, n).counts,
    decreases n,
{
    if n > 0 {
        lemma_schemas_counted(s, t, repo, schemas, (n - 1) as nat);
        lemma_tables_counted(
            with_schema_nodes(s, repo, schemas, (n - 1) as nat),
            with_schema_nodes(t, repo, schemas, (n - 1) as nat),
            repo,
            schemas[n - 1],
            schemas[n - 1].tables@.len(),
        );
    }
}

/// Whether two states have the same nodes and the same counts.
pub open spec fn alike(s: DataState, t: DataState) -> bool {
    s.graph.nodes == t.graph.nodes && s.counts == t.counts
}

/// Whether `h` has the nodes of `g`, and beyond the edges of `g` none but facts at the confidence of
/// the data plane.
pub open spec fn adds_facts(g: GraphView, h: GraphView) -> bool {
    &&& h.nodes == g.nodes
    &&& g.edges.len() <= h.edges.len()
    &&& forall|i: int| 0 <= i < g.edges.len() ==> #[trigger] h.edges[i] == g.edges[i]
    &&& forall|i: int|
        g.edges.len() <= i < h.edges.len() ==> (#[trigger] h.edges[i]).provenance == Provenance::Extracted
            && h.edges[i].confidence == CONF_DATA_FACT
}

proof fn lemma_fact_edge(f: GraphView, g: GraphView, e: EdgeView)
    requires
        adds_facts(f, g),
        e.provenance == Provenance::Extracted,
        e.confidence == CONF_DATA_FACT,
    ensures
        adds_facts(f, g.with_edge(e)),
{
    let h = g.with_edge(e);
    assert forall|i: int| f.edges.len() <= i < h.edges.len() implies (#[trigger] h.edges[i]).provenance
        == Provenance::Extracted && h.edges[i].confidence == CONF_DATA_FACT by {
        if i < g.edges.len() {
            assert(h.edges[i] == g.edges[i]);
        }
    }
    assert forall|i: int| 0 <= i < f.edges.len() implies #[trigger] h.edges[i] == f.edges[i] by {
        assert(h.edges[i] == g.edges[i]);
    }
}

proof fn lemma_facts_trans(f: GraphView, g: GraphView, h: GraphView)
    requires
        adds_facts(f, g),
        adds_facts(g, h),
    ensures
        adds_facts(f, h),
{
    assert forall|i: int| f.edges.len() <= i < h.edges.len() implies (#[trigger] h.edges[i]).provenance
        == Provenance::Extracted && h.edges[i].confidence == CONF_DATA_FACT by {
        if i < g.edges.len() {
            assert(h.edges[i] == g.edges[i]);
        }
    }
    assert forall|i: int| 0 <= i < f.edges.len() implies #[trigger] h.edges[i] == f.edges[i] by {
        assert(h.edges[i] == g.edges[i]);
    }
}

proof fn lemma_column_edges_facts(g: GraphView, repo: Seq<char>, schema: Seq<char>, table: TableDef, n: nat)
    ensures
        adds_facts(g, with_column_edges(g, repo, schema, table, n)),
    decreases n,
{
    if n > 0 {
        lemma_column_edges_facts(g, repo, schema, table, (n - 1) as nat);
        lemma_fact_edge(
            g,
            with_column_edges(g, repo, schema, table, (n - 1) as nat),
            model::edge_of(
                table_id(repo, schema, table.name@),
                column_id(repo, schema, table.name@, table.columns@[n - 1].name@),
                EdgeKind::HasColumn,
                Provenance::Extracted,
                CONF_DATA_FACT,
            ),
        );
    }
}

proof fn lemma_foreign_keys_alike(
    s: DataState,
    t: DataState,
    repo: Seq<char>,
    schemas: Seq<SchemaModel>,
    schema: Seq<char>,
    table: TableDef,
    n: nat,
)
    requires
        alike(s, t),
    ensures
        alike(
            with_foreign_keys(s, repo, schemas, schema, table, n),
            with_foreign_keys(t, repo, schemas, schema, table, n),
        ),
        adds_facts(s.graph, with_foreign_keys(s, repo, schemas, schema, table, n).graph),
    decreases n,
{
    if n > 0 {
        lemma_foreign_keys_alike(s, t, repo, schemas, schema, table, (n - 1) as nat);
        let a = with_foreign_keys(s, repo, schemas, schema, table, (n - 1) as nat);
        let fk = table.foreign_keys@[n - 1];
        match column_from(repo, schemas, fk.ref_table@, fk.ref_column@, 0) {
            Some(dst) => lemma_fact_edge(
                s.graph,
                a.graph,
                model::edge_of(
                    column_id(repo, schema, table.name@, fk.column@),
                    dst,
                    EdgeKind::ForeignKey,
                    Provenance::Extracted,
                    CONF_DATA_FACT,
                ),
            ),
            None => {},
        }
    }
}

proof fn lemma_table_edges_alike(
    s: DataState,
    t: DataState,
    repo: Seq<char>,
    schemas: Seq<SchemaModel>,
    schema: SchemaModel,
    n: nat,
)
    requires
        alike(s, t),
    ensures
        alike(with_table_edges(s, repo, schemas, schema, n), with_table_edges(t, repo, schemas, schema, n)),
        adds_facts(s.graph, with_table_edges(s, repo, schemas, schema, n).graph),
    decreases n,
{
    if n > 0 {
        lemma_table_edges_alike(s, t, repo, schemas, schema, (n - 1) as nat);
        let a = with_table_edges(s, repo, schemas, schema, (n - 1) as nat);
        let b = with_table_edges(t, repo, schemas, schema, (n - 1) as nat);
        let table = schema.tables@[n - 1];
        lemma_column_edges_facts(a.graph, repo, schema.path@, table, table.columns@.len());
        lemma_column_edges_facts(b.graph, repo, schema.path@, table, table.columns@.len());
        let u = DataState {
            graph: with_column_edges(a.graph, repo, schema.path@, table, table.columns@.len()),
            counts: a.counts,
        };
        let v = DataState {
            graph: with_column_edges(b.graph, repo, schema.path@, table, table.columns@.len()),
            counts: b.counts,
        };
        lemma_foreign_keys_alike(u, v, repo, schemas, schema.path@, table, table.foreign_keys@.len());
        lemma_facts_trans(s.graph, a.graph, u.graph);
        lemma_facts_trans(s.graph, u.graph, with_table_edges(s, repo, schemas, schema, n).graph);
    }
}

proof fn lemma_schema_edges_alike(s: DataState, t: DataState, repo: Seq<char>, schemas: Seq<SchemaModel>, n: nat)
    requires
        alike(s, t),
    ensures
        alike(with_schema_edges(s, repo, schemas, n), with_schema_edges(t, repo, schemas, n)),
        adds_facts(s.graph, with_schema_edges(s, repo, schemas, n).graph),
    decreases n,
{
    if n > 0 {
        lemma_schema_edges_alike(s, t, repo, schemas, (n - 1) as nat);
        let a = with_schema_edges(s, repo, schemas, (n - 1) as nat);
        let b = with_schema_edges(t, repo, schemas, (n - 1) as nat);
        let schema = schemas[n - 1];
        lemma_table_edges_alike(a, b, repo, schemas, schema, schema.tables@.len());
        lemma_facts_trans(s.graph, a.graph, with_schema_edges(s, repo, schemas, n).graph);
    }
}

proof fn lemma_has_alike(s: DataState, t: DataState, uid: Seq<char>)
    requires
        alike(s, t),
    ensures
        s.graph.has(uid) == t.graph.has(uid),
{
    if s.graph.has(uid) {
        let i = choose|i: int| 0 <= i < s.graph.nodes.len() && (#[trigger] s.graph.nodes[i]).uid == uid;
        assert(t.graph.nodes[i].uid == uid);
    }
    if t.graph.has(uid) {
        let i = choose|i: int| 0 <= i < t.graph.nodes.len() && (#[trigger] t.graph.nodes[i]).uid == uid;
        assert(s.graph.nodes[i].uid == uid);
    }
}

proof fn lemma_refs_alike(
    s: DataState,
    t: DataState,
    repo: Seq<char>,
    schemas: Seq<SchemaModel>,
    lang: Seq<char>,
    path: Seq<char>,
    cand: SqlCandidate,
    n: nat,
)
    requires
        alike(s, t),
    ensures
        alike(with_refs(s, repo, schemas, lang, path, cand, n), with_refs(t, repo, schemas, lang, path, cand, n)),
        adds_facts(s.graph, with_refs(s, repo, schemas, lang, path, cand, n).graph),
    decreases n,
{
    if n > 0 {
        lemma_refs_alike(s, t, repo, schemas, lang, path, cand, (n - 1) as nat);
        let a = with_refs(s, repo, schemas, lang, path, cand, (n - 1) as nat);
        let tref = cand.refs@[n - 1];
        match table_from(repo, schemas, tref.table@, 0) {
            Some(dst) => lemma_fact_edge(
                s.graph,
                a.graph,
                model::edge_of(
                    code_node(a.graph, lang, repo, path, cand.enclosing_fqn@),
                    dst,
                    access_kind(tref.access),
                    Provenance::Extracted,
                    CONF_DATA_FACT,
                ),
            ),
            None => {},
        }
    }
}

proof fn lemma_candidates_alike(
    s: DataState,
    t: DataState,
    repo: Seq<char>,
    schemas: Seq<SchemaModel>,
    lang: Seq<char>,
    path: Seq<char>,
    cands: Seq<SqlCandidate>,
    n: nat,
)
    requires
        alike(s, t),
    ensures
        alike(
            with_candidates(s, repo, schemas, lang, path, cands, n),
            with_candidates(t, repo, schemas, lang, path, cands, n),
        ),
        adds_facts(s.graph, with_candidates(s, repo, schemas, lang, path, cands, n).graph),
    decreases n,
{
    if n > 0 {
        lemma_candidates_alike(s, t, repo, schemas, lang, path, cands, (n - 1) as nat);
        let a = with_candidates(s, repo, schemas, lang, path, cands, (n - 1) as nat);
        let b = with_candidates(t, repo, schemas, lang, path, cands, (n - 1) as nat);
        lemma_refs_alike(a, b, repo, schemas, lang, path, cands[n - 1], cands[n - 1].refs@.len());
        lemma_facts_trans(s.graph, a.graph, with_candidates(s, repo, schemas, lang, path, cands, n).graph);
    }
}

proof fn lemma_code_sql_alike(
    s: DataState,
    t: DataState,
    repo: Seq<char>,
    schemas: Seq<SchemaModel>,
    files: Seq<SqlFileView>,
    n: nat,
)
    requires
        alike(s, t),
    ensures
        alike(with_code_sql(s, repo, schemas, files, n), with_code_sql(t, repo, schemas, files, n)),
        adds_facts(s.graph, with_code_sql(s, repo, schemas, files, n).graph),
    decreases n,
{
    if n > 0 {
        lemma_code_sql_alike(s, t, repo, schemas, files, (n - 1) as nat);
        let a = with_code_sql(s, repo, schemas, files, (n - 1) as nat);
        let b = with_code_sql(t, repo, schemas, files, (n - 1) as nat);
        let f = files[n - 1];
        lemma_candidates_alike(a, b, repo, schemas, f.lang, f.path, f.candidates, f.candidates.len());
        lemma_facts_trans(s.graph, a.graph, with_code_sql(s, repo, schemas, files, n).graph);
    }
}

proof fn lemma_hints_alike(
    s: DataState,
    t: DataState,
    repo: Seq<char>,
    schemas: Seq<SchemaModel>,
    lang: Seq<char>,
    path: Seq<char>,
    hints: Seq<OrmModelHint>,
    n: nat,
)
    requires
        alike(s, t),
    ensures
        alike(
            with_hints(s, repo, schemas, lang, path, hints, n),
            with_hints(t, repo, schemas, lang, path, hints, n),
        ),
        adds_facts(s.graph, with_hints(s, repo, schemas, lang, path, hints, n).graph),
    decreases n,
{
    if n > 0 {
        lemma_hints_alike(s, t, repo, schemas, lang, path, hints, (n - 1) as nat);
        let a = with_hints(s, repo, schemas, lang, path, hints, (n - 1) as nat);
        let b = with_hints(t, repo, schemas, lang, path, hints, (n - 1) as nat);
        let hint = hints[n - 1];
        let src = model::uid_text(lang, repo, path, hint.model_fqn@, ""@);
        lemma_has_alike(a, b, src);
        match table_from(repo, schemas, hint.table_name@, 0) {
            Some(dst) => lemma_fact_edge(
                s.graph,
                a.graph,
                model::edge_of(src, dst, EdgeKind::MapsTo, Provenance::Extracted, CONF_ORM_EXPLICIT),
            ),
            None => {},
        }
    }
}

proof fn lemma_code_orm_alike(
    s: DataState,
    t: DataState,
    repo: Seq<char>,
    schemas: Seq<SchemaModel>,
    files: Seq<OrmFileView>,
    n: nat,
)
    requires
        alike(s, t),
    ensures
        alike(with_code_orm(s, repo, schemas, files, n), with_code_orm(t, repo, schemas, files, n)),
        adds_facts(s.graph, with_code_orm(s, repo, schemas, files, n).graph),
    decreases n,
{
    if n > 0 {
        lemma_code_orm_alike(s, t, repo, schemas, files, (n - 1) as nat);
        let a = with_code_orm(s, repo, schemas, files, (n - 1) as nat);
        let b = with_code_orm(t, repo, schemas, files, (n - 1) as nat);
        let f = files[n - 1];
        lemma_hints_alike(a, b, repo, schemas, f.lang, f.path, f.hints, f.hints.len());
        lemma_facts_trans(s.graph, a.graph, with_code_orm(s, repo, schemas, files, n).graph);
    }
}

proof fn lemma_linked_alike(
    s: DataState,
    t: DataState,
    repo: Seq<char>,
    schemas: Seq<SchemaModel>,
    sql: Seq<SqlFileView>,
    orm: Seq<OrmFileView>,
)
    requires
        alike(s, t),
    ensures
        ({
            let b = with_schema_edges(s, repo, schemas, schemas.len());
            let c = with_code_sql(b, repo, schemas, sql, sql.len());
            let d = with_code_orm(c, repo, schemas, orm, orm.len());
            let y = with_schema_edges(t, repo, schemas, schemas.len());
            let z = with_code_sql(y, repo, schemas, sql, sql.len());
            alike(d, with_code_orm(z, repo, schemas, orm, orm.len())) && adds_facts(s.graph, d.graph)
        }),
{
    let b = with_schema_edges(s, repo, schemas, schemas.len());
    let y = with_schema_edges(t, repo, schemas, schemas.len());
    lemma_schema_edges_alike(s, t, repo, schemas, schemas.len());
    let c = with_code_sql(b, repo, schemas, sql, sql.len());
    let z = with_code_sql(y, repo, schemas, sql, sql.len());
    lemma_code_sql_alike(b, y, repo, schemas, sql, sql.len());
    lemma_code_orm_alike(c, z, repo, schemas, orm, orm.len());
    lemma_facts_trans(s.graph, b.graph, c.graph);
    lemma_facts_trans(s.graph, c.graph, with_code_orm(c, repo, schemas, orm, orm.len()).graph);
}

/// Every edge that the data plane adds is a fact, at the confidence of the data plane.
pub proof fn law_data_plane_adds_facts(
    g: GraphView,
    repo: Seq<char>,
    schemas: Seq<SchemaModel>,
    sql: Seq<SqlFileView>,
    orm: Seq<OrmFileView>,
)
    ensures
        forall|i: int|
            g.edges.len() <= i < data_plane(g, repo, schemas, sql, orm).graph.edges.len() ==> (
            #[trigger] data_plane(g, repo, schemas, sql, orm).graph.edges[i]).provenance == Provenance::Extracted
                && data_plane(g, repo, schemas, sql, orm).graph.edges[i].confidence == CONF_DATA_FACT,
{
    let s = DataState { graph: g, counts: DataCounts::zero() };
    let a = with_schema_nodes(s, repo, schemas, schemas.len());
    let nodes = schema_nodes(repo, schemas, schemas.len());
    lemma_schemas_as_nodes(s, repo, schemas, schemas.len());
    model::lemma_with_nodes_edges(g, nodes, nodes.len());
    lemma_linked_alike(a, a, repo, schemas, sql, orm);
}

/// Building the data plane a second time adds no node, changes none, and counts the same. The edges
/// are added again.
pub proof fn law_data_plane_nodes_idempotent(
    g: GraphView,
    repo: Seq<char>,
    schemas: Seq<SchemaModel>,
    sql: Seq<SqlFileView>,
    orm: Seq<OrmFileView>,
)
    ensures
        ({
            let once = data_plane(g, repo, schemas, sql, orm);
            let twice = data_plane(once.graph, repo, schemas, sql, orm);
            twice.graph.nodes == once.graph.nodes && twice.counts == once.counts
        }),
{
    let s = DataState { graph: g, counts: DataCounts::zero() };
    let a = with_schema_nodes(s, repo, schemas, schemas.len());
    let h = data_plane(g, repo, schemas, sql, orm).graph;
    let t = DataState { graph: h, counts: DataCounts::zero() };
    let b = with_schema_nodes(t, repo, schemas, schemas.len());
    let nodes = schema_nodes(repo, schemas, schemas.len());
    lemma_schemas_as_nodes(s, repo, schemas, schemas.len());
    model::lemma_added_shows(g, nodes, nodes.len());
    lemma_linked_alike(a, a, repo, schemas, sql, orm);
    assert(model::shows(h, nodes, nodes.len())) by {
        assert forall|j: int| 0 <= j < nodes.len() implies h.has((#[trigger] nodes[j]).uid) by {
            assert(a.graph.has(nodes[j].uid));
            let i = choose|i: int| 0 <= i < a.graph.nodes.len() && (#[trigger] a.graph.nodes[i]).uid == nodes[j].uid;
            assert(h.nodes[i].uid == nodes[j].uid);
        }
    }
    model::lemma_shown_again(h, nodes);
    lemma_schemas_as_nodes(t, repo, schemas, schemas.len());
    lemma_schemas_counted(s, t, repo, schemas, schemas.len());
    lemma_linked_alike(a, b, repo, schemas, sql, orm);
}

} // verus!
