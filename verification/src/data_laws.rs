//! What the data plane says of a repository, told by its schemas, its SQL literals and its model classes.
use vstd::prelude::*;

use crate::analysis::SqlAccess;
use crate::data;
use crate::data::{DataCounts, DataState, OrmFileView, SchemaModel, SqlFileView, TableDef};
use crate::growth;
use crate::model;
use crate::model::{EdgeKind, EdgeView, GraphView, NodeKind, NodeView, Provenance, Span};

verus! {

// ----------------------------------------------------------------------------------------------
// Names
// ----------------------------------------------------------------------------------------------

/// Whether table `t` of schema `i` has this name.
pub open spec fn table_named(schemas: Seq<SchemaModel>, i: int, t: int, table: Seq<char>) -> bool {
    &&& 0 <= i < schemas.len()
    &&& 0 <= t < schemas[i].tables@.len()
    &&& schemas[i].tables@[t].name@ == table
}

/// Whether column `c` of table `t` of schema `i` has these names.
pub open spec fn column_named(
    schemas: Seq<SchemaModel>,
    i: int,
    t: int,
    c: int,
    table: Seq<char>,
    column: Seq<char>,
) -> bool {
    &&& table_named(schemas, i, t, table)
    &&& 0 <= c < schemas[i].tables@[t].columns@.len()
    &&& schemas[i].tables@[t].columns@[c].name@ == column
}

/// The identifier of the table of a name in a schema.
pub open spec fn table_at(repo: Seq<char>, schema: Seq<char>, table: Seq<char>) -> Seq<char> {
    model::uid_text("data"@, repo, schema, table, ""@)
}

/// The identifier of a column of a table in a schema.
pub open spec fn column_at(repo: Seq<char>, schema: Seq<char>, table: Seq<char>, column: Seq<char>) -> Seq<char> {
    model::uid_text("data"@, repo, schema, table + seq!['.'] + column, ""@)
}

/// Whether `u` is the table that a name means: that of the first schema that declares one.
pub open spec fn means_table(repo: Seq<char>, schemas: Seq<SchemaModel>, table: Seq<char>, u: Seq<char>) -> bool {
    exists|i: int, t: int| #[trigger]
        table_named(schemas, i, t, table) && u == table_at(repo, schemas[i].path@, table) && forall|k: int, j: int|
            k < i ==> !#[trigger] table_named(schemas, k, j, table)
}

/// Whether `u` is the column that a name means: that of the first schema that declares one.
pub open spec fn means_column(
    repo: Seq<char>,
    schemas: Seq<SchemaModel>,
    table: Seq<char>,
    column: Seq<char>,
    u: Seq<char>,
) -> bool {
    exists|i: int, t: int, c: int| #[trigger]
        column_named(schemas, i, t, c, table, column) && u == column_at(repo, schemas[i].path@, table, column)
            && forall|k: int, j: int, d: int| k < i ==> !#[trigger] column_named(schemas, k, j, d, table, column)
}

proof fn lemma_column_at(repo: Seq<char>, schema: Seq<char>, table: Seq<char>, column: Seq<char>)
    ensures
        data::column_id(repo, schema, table, column) == column_at(repo, schema, table, column),
        data::column_fqn(table, column) == table + seq!['.'] + column,
{
    reveal_strlit(".");
    assert("."@ =~= seq!['.']);
}

proof fn lemma_declares_table(schemas: Seq<SchemaModel>, i: int, table: Seq<char>)
    requires
        0 <= i < schemas.len(),
    ensures
        data::declares_table(schemas[i], table) == exists|t: int| #[trigger] table_named(schemas, i, t, table),
{
    if data::declares_table(schemas[i], table) {
        let t = choose|t: int|
            0 <= t < schemas[i].tables@.len() && (#[trigger] schemas[i].tables@[t]).name@ == table;
        assert(table_named(schemas, i, t, table));
    }
}

proof fn lemma_declares_column(schemas: Seq<SchemaModel>, i: int, table: Seq<char>, column: Seq<char>)
    requires
        0 <= i < schemas.len(),
    ensures
        data::declares_column(schemas[i], table, column) == exists|t: int, c: int| #[trigger]
            column_named(schemas, i, t, c, table, column),
{
    if data::declares_column(schemas[i], table, column) {
        let t = choose|t: int|
            0 <= t < schemas[i].tables@.len() && (#[trigger] schemas[i].tables@[t]).name@ == table && data::has_column(
                schemas[i].tables@[t],
                column,
            );
        let cols = schemas[i].tables@[t].columns@;
        let c = choose|c: int| 0 <= c < cols.len() && (#[trigger] cols[c]).name@ == column;
        assert(column_named(schemas, i, t, c, table, column));
    }
    if exists|t: int, c: int| #[trigger] column_named(schemas, i, t, c, table, column) {
        let (t, c) = choose|t: int, c: int| #[trigger] column_named(schemas, i, t, c, table, column);
        assert(data::has_column(schemas[i].tables@[t], column));
    }
}

proof fn lemma_table_from(repo: Seq<char>, schemas: Seq<SchemaModel>, table: Seq<char>, from: int)
    requires
        0 <= from,
        forall|k: int, j: int| k < from ==> !#[trigger] table_named(schemas, k, j, table),
    ensures
        match data::table_from(repo, schemas, table, from) {
            Some(u) => means_table(repo, schemas, table, u),
            None => forall|i: int, t: int| !#[trigger] table_named(schemas, i, t, table),
        },
    decreases schemas.len() - from,
{
    if from < schemas.len() {
        lemma_declares_table(schemas, from, table);
        if !data::declares_table(schemas[from], table) {
            lemma_table_from(repo, schemas, table, from + 1);
        }
    }
}

proof fn lemma_column_from(
    repo: Seq<char>,
    schemas: Seq<SchemaModel>,
    table: Seq<char>,
    column: Seq<char>,
    from: int,
)
    requires
        0 <= from,
        forall|k: int, j: int, d: int| k < from ==> !#[trigger] column_named(schemas, k, j, d, table, column),
    ensures
        match data::column_from(repo, schemas, table, column, from) {
            Some(u) => means_column(repo, schemas, table, column, u),
            None => forall|i: int, t: int, c: int| !#[trigger] column_named(schemas, i, t, c, table, column),
        },
    decreases schemas.len() - from,
{
    if from < schemas.len() {
        lemma_declares_column(schemas, from, table, column);
        lemma_column_at(repo, schemas[from].path@, table, column);
        if !data::declares_column(schemas[from], table, column) {
            lemma_column_from(repo, schemas, table, column, from + 1);
        }
    }
}

/// A table name resolves exactly if some schema declares a table of that name, whichever schema it is,
/// and then to the table of the first that does.
pub proof fn law_resolve_table(repo: Seq<char>, schemas: Seq<SchemaModel>, table: Seq<char>)
    ensures
        data::table_from(repo, schemas, table, 0) is Some <==> exists|i: int, t: int| #[trigger]
            table_named(schemas, i, t, table),
        forall|u: Seq<char>| (data::table_from(repo, schemas, table, 0) == Some(u)) == #[trigger] means_table(
            repo,
            schemas,
            table,
            u,
        ),
{
    lemma_table_from(repo, schemas, table, 0);
    assert forall|u: Seq<char>| (data::table_from(repo, schemas, table, 0) == Some(u)) == #[trigger] means_table(
        repo,
        schemas,
        table,
        u,
    ) by {
        if means_table(repo, schemas, table, u) {
            let w = data::table_from(repo, schemas, table, 0)->0;
            let (i, t) = choose|i: int, t: int| #[trigger]
                table_named(schemas, i, t, table) && u == table_at(repo, schemas[i].path@, table) && forall|
                    k: int,
                    j: int,
                |
                    k < i ==> !#[trigger] table_named(schemas, k, j, table);
            let (k, j) = choose|i: int, t: int| #[trigger]
                table_named(schemas, i, t, table) && w == table_at(repo, schemas[i].path@, table) && forall|
                    k: int,
                    j: int,
                |
                    k < i ==> !#[trigger] table_named(schemas, k, j, table);
            assert(i == k);
        }
    }
}

/// A column name resolves exactly if some schema declares a table of that name with such a column, and
/// then to the column of the first that does.
pub proof fn law_resolve_ref_column(repo: Seq<char>, schemas: Seq<SchemaModel>, table: Seq<char>, column: Seq<char>)
    ensures
        data::column_from(repo, schemas, table, column, 0) is Some <==> exists|i: int, t: int, c: int| #[trigger]
            column_named(schemas, i, t, c, table, column),
        forall|u: Seq<char>|
            (data::column_from(repo, schemas, table, column, 0) == Some(u)) == #[trigger] means_column(
                repo,
                schemas,
                table,
                column,
                u,
            ),
{
    lemma_column_from(repo, schemas, table, column, 0);
    assert forall|u: Seq<char>|
        (data::column_from(repo, schemas, table, column, 0) == Some(u)) == #[trigger] means_column(
            repo,
            schemas,
            table,
            column,
            u,
        ) by {
        if means_column(repo, schemas, table, column, u) {
            let w = data::column_from(repo, schemas, table, column, 0)->0;
            let (i, t, c) = choose|i: int, t: int, c: int| #[trigger]
                column_named(schemas, i, t, c, table, column) && u == column_at(repo, schemas[i].path@, table, column)
                    && forall|k: int, j: int, d: int|
                    k < i ==> !#[trigger] column_named(schemas, k, j, d, table, column);
            let (k, j, d) = choose|i: int, t: int, c: int| #[trigger]
                column_named(schemas, i, t, c, table, column) && w == column_at(repo, schemas[i].path@, table, column)
                    && forall|k: int, j: int, d: int|
                    k < i ==> !#[trigger] column_named(schemas, k, j, d, table, column);
            assert(i == k);
        }
    }
}

// ----------------------------------------------------------------------------------------------
// Edges
// ----------------------------------------------------------------------------------------------

/// The edge of a fact of the data plane.
pub open spec fn data_fact(src: Seq<char>, dst: Seq<char>, kind: EdgeKind) -> EdgeView {
    EdgeView { src, dst, kind, provenance: Provenance::Extracted, confidence: 950_000_000 }
}

/// Whether an edge says that table `t` of a schema has its column `c`.
pub open spec fn column_gives(repo: Seq<char>, schema: SchemaModel, t: int, c: int, e: EdgeView) -> bool {
    let table = schema.tables@[t];
    &&& 0 <= t < schema.tables@.len()
    &&& 0 <= c < table.columns@.len()
    &&& e == data_fact(
        table_at(repo, schema.path@, table.name@),
        column_at(repo, schema.path@, table.name@, table.columns@[c].name@),
        EdgeKind::HasColumn,
    )
}

/// Whether an edge says where foreign key `k` of table `t` of a schema leads.
pub open spec fn key_gives(
    repo: Seq<char>,
    schemas: Seq<SchemaModel>,
    schema: SchemaModel,
    t: int,
    k: int,
    e: EdgeView,
) -> bool {
    let table = schema.tables@[t];
    let key = table.foreign_keys@[k];
    &&& 0 <= t < schema.tables@.len()
    &&& 0 <= k < table.foreign_keys@.len()
    &&& e == data_fact(
        column_at(repo, schema.path@, table.name@, key.column@),
        e.dst,
        EdgeKind::ForeignKey,
    )
    &&& means_column(repo, schemas, key.ref_table@, key.ref_column@, e.dst)
}

/// Whether an edge is one of table `t` of a schema.
pub open spec fn table_gives(
    repo: Seq<char>,
    schemas: Seq<SchemaModel>,
    schema: SchemaModel,
    t: int,
    e: EdgeView,
) -> bool {
    ||| exists|c: int| #[trigger] column_gives(repo, schema, t, c, e)
    ||| exists|k: int| #[trigger] key_gives(repo, schemas, schema, t, k, e)
}

/// Whether an edge is one of schema `i`.
pub open spec fn schema_gives(repo: Seq<char>, schemas: Seq<SchemaModel>, i: int, e: EdgeView) -> bool {
    exists|t: int| #[trigger] table_gives(repo, schemas, schemas[i], t, e)
}

/// Whether `u` is the node that a literal in a file belongs to: the symbol around it where that is a
/// node, else the module.
pub open spec fn stands_in(g: GraphView, repo: Seq<char>, lang: Seq<char>, path: Seq<char>, fqn: Seq<char>, u: Seq<
    char,
>) -> bool {
    let sym = model::uid_text(lang, repo, path, fqn, ""@);
    ||| u == sym && fqn.len() > 0 && g.has(sym)
    ||| u == model::uid_text(lang, repo, path, "<module>"@, ""@) && (fqn.len() == 0 || !g.has(sym))
}

/// Whether an edge says that the code around literal `c` of a file reads or writes what its table
/// reference `r` names.
pub open spec fn ref_gives(
    g: GraphView,
    repo: Seq<char>,
    schemas: Seq<SchemaModel>,
    f: SqlFileView,
    c: int,
    r: int,
    e: EdgeView,
) -> bool {
    let cand = f.candidates[c];
    let named = cand.refs@[r];
    &&& 0 <= c < f.candidates.len()
    &&& 0 <= r < cand.refs@.len()
    &&& e == data_fact(
        e.src,
        e.dst,
        if named.access == SqlAccess::Write {
            EdgeKind::Writes
        } else {
            EdgeKind::Reads
        },
    )
    &&& stands_in(g, repo, f.lang, f.path, cand.enclosing_fqn@, e.src)
    &&& means_table(repo, schemas, named.table@, e.dst)
}

/// Whether an edge is one of literal `c` of a file.
pub open spec fn literal_gives(
    g: GraphView,
    repo: Seq<char>,
    schemas: Seq<SchemaModel>,
    f: SqlFileView,
    c: int,
    e: EdgeView,
) -> bool {
    exists|r: int| #[trigger] ref_gives(g, repo, schemas, f, c, r, e)
}

/// Whether an edge is one of the literals of a file.
pub open spec fn sql_gives(g: GraphView, repo: Seq<char>, schemas: Seq<SchemaModel>, f: SqlFileView, e: EdgeView) -> bool {
    exists|c: int| #[trigger] literal_gives(g, repo, schemas, f, c, e)
}

/// Whether an edge says that model class `m` of a file maps to its table: the class is a node.
pub open spec fn model_gives(
    g: GraphView,
    repo: Seq<char>,
    schemas: Seq<SchemaModel>,
    f: OrmFileView,
    m: int,
    e: EdgeView,
) -> bool {
    let hint = f.hints[m];
    &&& 0 <= m < f.hints.len()
    &&& e == data_fact(model::uid_text(f.lang, repo, f.path, hint.model_fqn@, ""@), e.dst, EdgeKind::MapsTo)
    &&& g.has(e.src)
    &&& means_table(repo, schemas, hint.table_name@, e.dst)
}

/// Whether an edge is one of the model classes of a file.
pub open spec fn orm_gives(g: GraphView, repo: Seq<char>, schemas: Seq<SchemaModel>, f: OrmFileView, e: EdgeView) -> bool {
    exists|m: int| #[trigger] model_gives(g, repo, schemas, f, m, e)
}

/// The number of links of a kind that were counted.
pub open spec fn links(c: DataCounts, kind: EdgeKind) -> nat {
    match kind {
        EdgeKind::ForeignKey => c.fks_linked,
        EdgeKind::Reads => c.reads_linked,
        EdgeKind::Writes => c.writes_linked,
        EdgeKind::MapsTo => c.models_linked,
        _ => 0,
    }
}

/// Whether an edge kind is one whose links are counted.
pub open spec fn is_counted(kind: EdgeKind) -> bool {
    kind == EdgeKind::ForeignKey || kind == EdgeKind::Reads || kind == EdgeKind::Writes || kind == EdgeKind::MapsTo
}

/// Whether the links that are counted from `s` to `t` are the edges that are added.
pub open spec fn tallies(s: DataState, t: DataState) -> bool {
    forall|kind: EdgeKind| #[trigger]
        is_counted(kind) ==> growth::kind_count(t.graph.edges, kind) + links(s.counts, kind) == growth::kind_count(
            s.graph.edges,
            kind,
        ) + links(t.counts, kind)
}

proof fn lemma_tally(s: DataState, t: DataState, x: EdgeView)
    requires
        t.graph == s.graph.with_edge(x),
        forall|kind: EdgeKind| #[trigger]
            is_counted(kind) ==> links(t.counts, kind) == links(s.counts, kind) + if kind == x.kind {
                1nat
            } else {
                0
            },
    ensures
        tallies(s, t),
{
    assert forall|kind: EdgeKind| #[trigger] is_counted(kind) implies growth::kind_count(t.graph.edges, kind) + links(
        s.counts,
        kind,
    ) == growth::kind_count(s.graph.edges, kind) + links(t.counts, kind) by {
        growth::lemma_kind_count(s.graph.edges, x, kind);
    }
}

proof fn lemma_column_edges(g: GraphView, repo: Seq<char>, schema: SchemaModel, t: int, n: nat)
    requires
        0 <= t < schema.tables@.len(),
        n <= schema.tables@[t].columns@.len(),
    ensures
        growth::adds_upto(
            g,
            data::with_column_edges(g, repo, schema.path@, schema.tables@[t], n),
            |c: int, e: EdgeView| column_gives(repo, schema, t, c, e),
            n as int,
        ),
        forall|kind: EdgeKind| #[trigger]
            is_counted(kind) ==> growth::kind_count(
                data::with_column_edges(g, repo, schema.path@, schema.tables@[t], n).edges,
                kind,
            ) == growth::kind_count(g.edges, kind),
    decreases n,
{
    let gives = |c: int, e: EdgeView| column_gives(repo, schema, t, c, e);
    if n > 0 {
        let m = (n - 1) as nat;
        lemma_column_edges(g, repo, schema, t, m);
        let table = schema.tables@[t];
        let b = data::with_column_edges(g, repo, schema.path@, table, m);
        let h = data::with_column_edges(g, repo, schema.path@, table, n);
        let name = table.columns@[m as int].name@;
        lemma_column_at(repo, schema.path@, table.name@, name);
        let x = data_fact(
            table_at(repo, schema.path@, table.name@),
            column_at(repo, schema.path@, table.name@, name),
            EdgeKind::HasColumn,
        );
        assert(h == b.with_edge(x));
        let p = |e: EdgeView| e == x;
        growth::lemma_adds_one(b, x, p);
        growth::lemma_adds_next(g, b, h, gives, p, m as int);
        assert forall|kind: EdgeKind| #[trigger] is_counted(kind) implies growth::kind_count(h.edges, kind)
            == growth::kind_count(g.edges, kind) by {
            growth::lemma_kind_count(b.edges, x, kind);
        }
    } else {
        growth::lemma_adds_none(g, gives);
    }
}

proof fn lemma_keys(
    s: DataState,
    repo: Seq<char>,
    schemas: Seq<SchemaModel>,
    schema: SchemaModel,
    t: int,
    n: nat,
)
    requires
        0 <= t < schema.tables@.len(),
        n <= schema.tables@[t].foreign_keys@.len(),
    ensures
        growth::adds_upto(
            s.graph,
            data::with_foreign_keys(s, repo, schemas, schema.path@, schema.tables@[t], n).graph,
            |k: int, e: EdgeView| key_gives(repo, schemas, schema, t, k, e),
            n as int,
        ),
        tallies(s, data::with_foreign_keys(s, repo, schemas, schema.path@, schema.tables@[t], n)),
    decreases n,
{
    let gives = |k: int, e: EdgeView| key_gives(repo, schemas, schema, t, k, e);
    if n > 0 {
        let m = (n - 1) as nat;
        lemma_keys(s, repo, schemas, schema, t, m);
        let table = schema.tables@[t];
        let key = table.foreign_keys@[m as int];
        let b = data::with_foreign_keys(s, repo, schemas, schema.path@, table, m);
        let h = data::with_foreign_keys(s, repo, schemas, schema.path@, table, n);
        lemma_column_at(repo, schema.path@, table.name@, key.column@);
        law_resolve_ref_column(repo, schemas, key.ref_table@, key.ref_column@);
        let p = |e: EdgeView| key_gives(repo, schemas, schema, t, m as int, e);
        match data::column_from(repo, schemas, key.ref_table@, key.ref_column@, 0) {
            Some(dst) => {
                let x = data_fact(
                    column_at(repo, schema.path@, table.name@, key.column@),
                    dst,
                    EdgeKind::ForeignKey,
                );
                assert(means_column(repo, schemas, key.ref_table@, key.ref_column@, dst));
                assert(h.graph == b.graph.with_edge(x));
                growth::lemma_adds_one(b.graph, x, p);
                lemma_tally(b, h, x);
            },
            None => {
                assert(growth::adds(b.graph, h.graph, p));
            },
        }
        growth::lemma_adds_next(s.graph, b.graph, h.graph, gives, p, m as int);
    } else {
        growth::lemma_adds_none(s.graph, gives);
    }
}

proof fn lemma_table_edges(
    s: DataState,
    repo: Seq<char>,
    schemas: Seq<SchemaModel>,
    schema: SchemaModel,
    n: nat,
)
    requires
        n <= schema.tables@.len(),
    ensures
        growth::adds_upto(
            s.graph,
            data::with_table_edges(s, repo, schemas, schema, n).graph,
            |t: int, e: EdgeView| table_gives(repo, schemas, schema, t, e),
            n as int,
        ),
        tallies(s, data::with_table_edges(s, repo, schemas, schema, n)),
    decreases n,
{
    let gives = |t: int, e: EdgeView| table_gives(repo, schemas, schema, t, e);
    if n > 0 {
        let m = (n - 1) as nat;
        let last = n - 1;
        lemma_table_edges(s, repo, schemas, schema, m);
        let table = schema.tables@[last];
        let b = data::with_table_edges(s, repo, schemas, schema, m);
        let u = DataState {
            graph: data::with_column_edges(b.graph, repo, schema.path@, table, table.columns@.len()),
            counts: b.counts,
        };
        let h = data::with_table_edges(s, repo, schemas, schema, n);
        let cs = |c: int, e: EdgeView| column_gives(repo, schema, last, c, e);
        let ks = |k: int, e: EdgeView| key_gives(repo, schemas, schema, last, k, e);
        lemma_column_edges(b.graph, repo, schema, last, table.columns@.len());
        lemma_keys(u, repo, schemas, schema, last, table.foreign_keys@.len());
        let p = |e: EdgeView| table_gives(repo, schemas, schema, last, e);
        assert forall|e: EdgeView| #[trigger] h.graph.edges.contains(e) == (b.graph.edges.contains(e) || p(e)) by {
            assert(u.graph.edges.contains(e) == (b.graph.edges.contains(e) || growth::given(
                cs,
                table.columns@.len() as int,
                e,
            )));
            if exists|c: int| #[trigger] column_gives(repo, schema, last, c, e) {
                let c = choose|c: int| #[trigger] column_gives(repo, schema, last, c, e);
                assert(cs(c, e));
            }
            if exists|k: int| #[trigger] key_gives(repo, schemas, schema, last, k, e) {
                let k = choose|k: int| #[trigger] key_gives(repo, schemas, schema, last, k, e);
                assert(ks(k, e));
            }
        }
        growth::lemma_adds_next(s.graph, b.graph, h.graph, gives, p, last);
    } else {
        growth::lemma_adds_none(s.graph, gives);
    }
}

proof fn lemma_schema_edges(s: DataState, repo: Seq<char>, schemas: Seq<SchemaModel>, n: nat)
    requires
        n <= schemas.len(),
    ensures
        growth::adds_upto(
            s.graph,
            data::with_schema_edges(s, repo, schemas, n).graph,
            |i: int, e: EdgeView| schema_gives(repo, schemas, i, e),
            n as int,
        ),
        tallies(s, data::with_schema_edges(s, repo, schemas, n)),
    decreases n,
{
    let gives = |i: int, e: EdgeView| schema_gives(repo, schemas, i, e);
    if n > 0 {
        let m = (n - 1) as nat;
        let last = n - 1;
        lemma_schema_edges(s, repo, schemas, m);
        let schema = schemas[last];
        let b = data::with_schema_edges(s, repo, schemas, m);
        let h = data::with_schema_edges(s, repo, schemas, n);
        let ts = |t: int, e: EdgeView| table_gives(repo, schemas, schema, t, e);
        lemma_table_edges(b, repo, schemas, schema, schema.tables@.len());
        let p = |e: EdgeView| schema_gives(repo, schemas, last, e);
        assert forall|e: EdgeView| #[trigger] h.graph.edges.contains(e) == (b.graph.edges.contains(e) || p(e)) by {
            if p(e) {
                let t = choose|t: int| #[trigger] table_gives(repo, schemas, schema, t, e);
                assert(ts(t, e));
            }
        }
        growth::lemma_adds_next(s.graph, b.graph, h.graph, gives, p, last);
    } else {
        growth::lemma_adds_none(s.graph, gives);
    }
}

proof fn lemma_refs(
    g: GraphView,
    s: DataState,
    repo: Seq<char>,
    schemas: Seq<SchemaModel>,
    f: SqlFileView,
    c: int,
    n: nat,
)
    requires
        g.nodes == s.graph.nodes,
        0 <= c < f.candidates.len(),
        n <= f.candidates[c].refs@.len(),
    ensures
        growth::adds_upto(
            s.graph,
            data::with_refs(s, repo, schemas, f.lang, f.path, f.candidates[c], n).graph,
            |r: int, e: EdgeView| ref_gives(g, repo, schemas, f, c, r, e),
            n as int,
        ),
        tallies(s, data::with_refs(s, repo, schemas, f.lang, f.path, f.candidates[c], n)),
    decreases n,
{
    let gives = |r: int, e: EdgeView| ref_gives(g, repo, schemas, f, c, r, e);
    if n > 0 {
        let m = (n - 1) as nat;
        let last = n - 1;
        lemma_refs(g, s, repo, schemas, f, c, m);
        let cand = f.candidates[c];
        let named = cand.refs@[last];
        let b = data::with_refs(s, repo, schemas, f.lang, f.path, cand, m);
        let h = data::with_refs(s, repo, schemas, f.lang, f.path, cand, n);
        assert(forall|v: Seq<char>| #[trigger] b.graph.has(v) == g.has(v));
        law_resolve_table(repo, schemas, named.table@);
        let p = |e: EdgeView| ref_gives(g, repo, schemas, f, c, last, e);
        let src = data::code_node(b.graph, f.lang, repo, f.path, cand.enclosing_fqn@);
        match data::table_from(repo, schemas, named.table@, 0) {
            Some(dst) => {
                let x = data_fact(
                    src,
                    dst,
                    if named.access == SqlAccess::Write {
                        EdgeKind::Writes
                    } else {
                        EdgeKind::Reads
                    },
                );
                assert(means_table(repo, schemas, named.table@, dst));
                assert(h.graph == b.graph.with_edge(x));
                growth::lemma_adds_one(b.graph, x, p);
                lemma_tally(b, h, x);
            },
            None => {
                assert(growth::adds(b.graph, h.graph, p));
            },
        }
        growth::lemma_adds_next(s.graph, b.graph, h.graph, gives, p, last);
    } else {
        growth::lemma_adds_none(s.graph, gives);
    }
}

proof fn lemma_literals(
    g: GraphView,
    s: DataState,
    repo: Seq<char>,
    schemas: Seq<SchemaModel>,
    f: SqlFileView,
    n: nat,
)
    requires
        g.nodes == s.graph.nodes,
        n <= f.candidates.len(),
    ensures
        growth::adds_upto(
            s.graph,
            data::with_candidates(s, repo, schemas, f.lang, f.path, f.candidates, n).graph,
            |c: int, e: EdgeView| literal_gives(g, repo, schemas, f, c, e),
            n as int,
        ),
        tallies(s, data::with_candidates(s, repo, schemas, f.lang, f.path, f.candidates, n)),
    decreases n,
{
    let gives = |c: int, e: EdgeView| literal_gives(g, repo, schemas, f, c, e);
    if n > 0 {
        let m = (n - 1) as nat;
        let last = n - 1;
        lemma_literals(g, s, repo, schemas, f, m);
        let b = data::with_candidates(s, repo, schemas, f.lang, f.path, f.candidates, m);
        let h = data::with_candidates(s, repo, schemas, f.lang, f.path, f.candidates, n);
        let rs = |r: int, e: EdgeView| ref_gives(g, repo, schemas, f, last, r, e);
        lemma_refs(g, b, repo, schemas, f, last, f.candidates[last].refs@.len());
        let p = |e: EdgeView| literal_gives(g, repo, schemas, f, last, e);
        assert forall|e: EdgeView| #[trigger] h.graph.edges.contains(e) == (b.graph.edges.contains(e) || p(e)) by {
            if p(e) {
                let r = choose|r: int| #[trigger] ref_gives(g, repo, schemas, f, last, r, e);
                assert(rs(r, e));
            }
        }
        growth::lemma_adds_next(s.graph, b.graph, h.graph, gives, p, last);
    } else {
        growth::lemma_adds_none(s.graph, gives);
    }
}

proof fn lemma_sql(
    g: GraphView,
    s: DataState,
    repo: Seq<char>,
    schemas: Seq<SchemaModel>,
    files: Seq<SqlFileView>,
    n: nat,
)
    requires
        g.nodes == s.graph.nodes,
        n <= files.len(),
    ensures
        growth::adds_upto(
            s.graph,
            data::with_code_sql(s, repo, schemas, files, n).graph,
            |i: int, e: EdgeView| sql_gives(g, repo, schemas, files[i], e),
            n as int,
        ),
        tallies(s, data::with_code_sql(s, repo, schemas, files, n)),
    decreases n,
{
    let gives = |i: int, e: EdgeView| sql_gives(g, repo, schemas, files[i], e);
    if n > 0 {
        let m = (n - 1) as nat;
        let last = n - 1;
        lemma_sql(g, s, repo, schemas, files, m);
        let f = files[last];
        let b = data::with_code_sql(s, repo, schemas, files, m);
        let h = data::with_code_sql(s, repo, schemas, files, n);
        let cs = |c: int, e: EdgeView| literal_gives(g, repo, schemas, f, c, e);
        lemma_literals(g, b, repo, schemas, f, f.candidates.len());
        let p = |e: EdgeView| sql_gives(g, repo, schemas, f, e);
        assert forall|e: EdgeView| #[trigger] h.graph.edges.contains(e) == (b.graph.edges.contains(e) || p(e)) by {
            if p(e) {
                let c = choose|c: int| #[trigger] literal_gives(g, repo, schemas, f, c, e);
                assert(cs(c, e));
            }
        }
        growth::lemma_adds_next(s.graph, b.graph, h.graph, gives, p, last);
    } else {
        growth::lemma_adds_none(s.graph, gives);
    }
}

proof fn lemma_models(
    g: GraphView,
    s: DataState,
    repo: Seq<char>,
    schemas: Seq<SchemaModel>,
    f: OrmFileView,
    n: nat,
)
    requires
        g.nodes == s.graph.nodes,
        n <= f.hints.len(),
    ensures
        growth::adds_upto(
            s.graph,
            data::with_hints(s, repo, schemas, f.lang, f.path, f.hints, n).graph,
            |m: int, e: EdgeView| model_gives(g, repo, schemas, f, m, e),
            n as int,
        ),
        tallies(s, data::with_hints(s, repo, schemas, f.lang, f.path, f.hints, n)),
    decreases n,
{
    let gives = |m: int, e: EdgeView| model_gives(g, repo, schemas, f, m, e);
    if n > 0 {
        let m = (n - 1) as nat;
        let last = n - 1;
        lemma_models(g, s, repo, schemas, f, m);
        let hint = f.hints[last];
        let b = data::with_hints(s, repo, schemas, f.lang, f.path, f.hints, m);
        let h = data::with_hints(s, repo, schemas, f.lang, f.path, f.hints, n);
        assert(forall|v: Seq<char>| #[trigger] b.graph.has(v) == g.has(v));
        law_resolve_table(repo, schemas, hint.table_name@);
        let p = |e: EdgeView| model_gives(g, repo, schemas, f, last, e);
        let src = model::uid_text(f.lang, repo, f.path, hint.model_fqn@, ""@);
        match data::table_from(repo, schemas, hint.table_name@, 0) {
            Some(dst) if b.graph.has(src) => {
                let x = data_fact(src, dst, EdgeKind::MapsTo);
                assert(means_table(repo, schemas, hint.table_name@, dst));
                assert(h.graph == b.graph.with_edge(x));
                growth::lemma_adds_one(b.graph, x, p);
                lemma_tally(b, h, x);
            },
            _ => {
                assert(growth::adds(b.graph, h.graph, p));
            },
        }
        growth::lemma_adds_next(s.graph, b.graph, h.graph, gives, p, last);
    } else {
        growth::lemma_adds_none(s.graph, gives);
    }
}

proof fn lemma_orm(
    g: GraphView,
    s: DataState,
    repo: Seq<char>,
    schemas: Seq<SchemaModel>,
    files: Seq<OrmFileView>,
    n: nat,
)
    requires
        g.nodes == s.graph.nodes,
        n <= files.len(),
    ensures
        growth::adds_upto(
            s.graph,
            data::with_code_orm(s, repo, schemas, files, n).graph,
            |i: int, e: EdgeView| orm_gives(g, repo, schemas, files[i], e),
            n as int,
        ),
        tallies(s, data::with_code_orm(s, repo, schemas, files, n)),
    decreases n,
{
    let gives = |i: int, e: EdgeView| orm_gives(g, repo, schemas, files[i], e);
    if n > 0 {
        let m = (n - 1) as nat;
        let last = n - 1;
        lemma_orm(g, s, repo, schemas, files, m);
        let f = files[last];
        let b = data::with_code_orm(s, repo, schemas, files, m);
        let h = data::with_code_orm(s, repo, schemas, files, n);
        let ms = |m: int, e: EdgeView| model_gives(g, repo, schemas, f, m, e);
        lemma_models(g, b, repo, schemas, f, f.hints.len());
        let p = |e: EdgeView| orm_gives(g, repo, schemas, f, e);
        assert forall|e: EdgeView| #[trigger] h.graph.edges.contains(e) == (b.graph.edges.contains(e) || p(e)) by {
            if p(e) {
                let m = choose|m: int| #[trigger] model_gives(g, repo, schemas, f, m, e);
                assert(ms(m, e));
            }
        }
        growth::lemma_adds_next(s.graph, b.graph, h.graph, gives, p, last);
    } else {
        growth::lemma_adds_none(s.graph, gives);
    }
}

// ----------------------------------------------------------------------------------------------
// Nodes
// ----------------------------------------------------------------------------------------------

/// The node of a thing that a schema declares.
pub open spec fn declared(uid: Seq<char>, kind: NodeKind, name: Seq<char>, fqn: Seq<char>, path: Seq<char>) -> NodeView {
    NodeView {
        uid,
        kind,
        name,
        fqn,
        path,
        span: Span { start_line: 0, start_col: 0, end_line: 0, end_col: 0 },
        provenance: Provenance::Extracted,
        confidence: 1_000_000_000,
    }
}

/// Whether a node is that of table `t` of a schema.
pub open spec fn is_table_node(repo: Seq<char>, schema: SchemaModel, t: int, x: NodeView) -> bool {
    let name = schema.tables@[t].name@;
    0 <= t < schema.tables@.len() && x == declared(
        table_at(repo, schema.path@, name),
        NodeKind::Table,
        name,
        name,
        schema.path@,
    )
}

/// Whether a node is that of column `c` of table `t` of a schema.
pub open spec fn is_column_node(repo: Seq<char>, schema: SchemaModel, t: int, c: int, x: NodeView) -> bool {
    let table = schema.tables@[t];
    let name = table.columns@[c].name@;
    0 <= t < schema.tables@.len() && 0 <= c < table.columns@.len() && x == declared(
        column_at(repo, schema.path@, table.name@, name),
        NodeKind::Column,
        name,
        table.name@ + seq!['.'] + name,
        schema.path@,
    )
}

/// Whether a node is that of one of the first `n` columns of a table.
spec fn column_nodes(repo: Seq<char>, schema: SchemaModel, t: int, n: int, x: NodeView) -> bool {
    exists|c: int| c < n && #[trigger] is_column_node(repo, schema, t, c, x)
}

/// Whether a node is that of one of the first `n` tables of a schema, or of a column of one.
spec fn table_nodes(repo: Seq<char>, schema: SchemaModel, n: int, x: NodeView) -> bool {
    ||| exists|t: int| t < n && #[trigger] is_table_node(repo, schema, t, x)
    ||| exists|t: int, c: int| t < n && #[trigger] is_column_node(repo, schema, t, c, x)
}

/// Whether a node is that of a table of a schema, or of a column of one.
pub open spec fn schema_node(repo: Seq<char>, schema: SchemaModel, x: NodeView) -> bool {
    ||| exists|t: int| #[trigger] is_table_node(repo, schema, t, x)
    ||| exists|t: int, c: int| #[trigger] is_column_node(repo, schema, t, c, x)
}

proof fn lemma_column_nodes(s: DataState, repo: Seq<char>, schema: SchemaModel, t: int, n: nat)
    requires
        0 <= t < schema.tables@.len(),
        n <= schema.tables@[t].columns@.len(),
    ensures
        growth::nodes_from(
            s.graph,
            data::with_columns(s, repo, schema.path@, schema.tables@[t], n).graph,
            |x: NodeView| column_nodes(repo, schema, t, n as int, x),
        ),
    decreases n,
{
    let r = |x: NodeView| column_nodes(repo, schema, t, n as int, x);
    if n > 0 {
        let m = (n - 1) as nat;
        let last = n - 1;
        lemma_column_nodes(s, repo, schema, t, m);
        let table = schema.tables@[t];
        let name = table.columns@[last].name@;
        lemma_column_at(repo, schema.path@, table.name@, name);
        let b = data::with_columns(s, repo, schema.path@, table, m).graph;
        let h = data::with_columns(s, repo, schema.path@, table, n).graph;
        let node = data::column_fact(repo, schema.path@, table.name@, name);
        assert(is_column_node(repo, schema, t, last, node));
        assert(h == b.with_node(node));
        let p = |x: NodeView| column_nodes(repo, schema, t, m as int, x);
        let q = |x: NodeView| x == node;
        growth::lemma_nodes_one(b, node, q);
        assert forall|x: NodeView| #[trigger] r(x) == (p(x) || q(x)) by {
            if r(x) {
                let c = choose|c: int| c < n && #[trigger] is_column_node(repo, schema, t, c, x);
                assert(c < m || c == last);
            }
        }
        growth::lemma_nodes_more(s.graph, b, h, p, q, r);
    } else {
        growth::lemma_nodes_none(s.graph, r);
    }
}

proof fn lemma_table_nodes(s: DataState, repo: Seq<char>, schema: SchemaModel, n: nat)
    requires
        n <= schema.tables@.len(),
    ensures
        growth::nodes_from(
            s.graph,
            data::with_tables(s, repo, schema, n).graph,
            |x: NodeView| table_nodes(repo, schema, n as int, x),
        ),
    decreases n,
{
    let r = |x: NodeView| table_nodes(repo, schema, n as int, x);
    if n > 0 {
        let m = (n - 1) as nat;
        let last = n - 1;
        lemma_table_nodes(s, repo, schema, m);
        let table = schema.tables@[last];
        let t = data::with_tables(s, repo, schema, m);
        let node = data::table_fact(repo, schema.path@, table.name@);
        assert(is_table_node(repo, schema, last, node));
        let u = DataState {
            graph: t.graph.with_node(node),
            counts: DataCounts { tables: t.counts.tables + 1, ..t.counts },
        };
        let h = data::with_tables(s, repo, schema, n).graph;
        assert(h == data::with_columns(u, repo, schema.path@, table, table.columns@.len()).graph);
        lemma_column_nodes(u, repo, schema, last, table.columns@.len());
        let p = |x: NodeView| table_nodes(repo, schema, m as int, x);
        let q = |x: NodeView| x == node;
        let pq = |x: NodeView| p(x) || q(x);
        let c = |x: NodeView| column_nodes(repo, schema, last, table.columns@.len() as int, x);
        growth::lemma_nodes_one(t.graph, node, q);
        growth::lemma_nodes_more(s.graph, t.graph, u.graph, p, q, pq);
        assert forall|x: NodeView| #[trigger] r(x) == (pq(x) || c(x)) by {
            if exists|t: int| t < n && #[trigger] is_table_node(repo, schema, t, x) {
                let t = choose|t: int| t < n && #[trigger] is_table_node(repo, schema, t, x);
                assert(t < m || t == last);
            }
            if exists|t: int, c: int| t < n && #[trigger] is_column_node(repo, schema, t, c, x) {
                let (t, c) = choose|t: int, c: int| t < n && #[trigger] is_column_node(repo, schema, t, c, x);
                assert(t < m || t == last);
            }
        }
        growth::lemma_nodes_more(s.graph, u.graph, h, pq, c, r);
    } else {
        growth::lemma_nodes_none(s.graph, r);
    }
}

proof fn lemma_schema_nodes(s: DataState, repo: Seq<char>, schemas: Seq<SchemaModel>, n: nat)
    requires
        n <= schemas.len(),
    ensures
        growth::nodes_from(
            s.graph,
            data::with_schema_nodes(s, repo, schemas, n).graph,
            |x: NodeView| exists|i: int| 0 <= i < n && schema_node(repo, #[trigger] schemas[i], x),
        ),
        forall|kind: EdgeKind| #[trigger]
            is_counted(kind) ==> links(data::with_schema_nodes(s, repo, schemas, n).counts, kind) == links(
                s.counts,
                kind,
            ),
    decreases n,
{
    let r = |x: NodeView| exists|i: int| 0 <= i < n && schema_node(repo, #[trigger] schemas[i], x);
    if n > 0 {
        let m = (n - 1) as nat;
        let last = n - 1;
        lemma_schema_nodes(s, repo, schemas, m);
        let schema = schemas[last];
        let b = data::with_schema_nodes(s, repo, schemas, m);
        let h = data::with_schema_nodes(s, repo, schemas, n);
        lemma_table_nodes(b, repo, schema, schema.tables@.len());
        lemma_tables_keep_links(b, repo, schema, schema.tables@.len());
        let p = |x: NodeView| exists|i: int| 0 <= i < m && schema_node(repo, #[trigger] schemas[i], x);
        let q = |x: NodeView| table_nodes(repo, schema, schema.tables@.len() as int, x);
        assert forall|x: NodeView| #[trigger] r(x) == (p(x) || q(x)) by {
            assert(q(x) == schema_node(repo, schema, x)) by {
                if exists|t: int| #[trigger] is_table_node(repo, schema, t, x) {
                    let t = choose|t: int| #[trigger] is_table_node(repo, schema, t, x);
                    assert(t < schema.tables@.len());
                }
                if exists|t: int, c: int| #[trigger] is_column_node(repo, schema, t, c, x) {
                    let (t, c) = choose|t: int, c: int| #[trigger] is_column_node(repo, schema, t, c, x);
                    assert(t < schema.tables@.len());
                }
            }
            if r(x) {
                let i = choose|i: int| 0 <= i < n && schema_node(repo, #[trigger] schemas[i], x);
                assert(i < m || i == last);
            }
            if p(x) {
                let i = choose|i: int| 0 <= i < m && schema_node(repo, #[trigger] schemas[i], x);
                assert(schema_node(repo, schemas[i], x));
            }
        }
        growth::lemma_nodes_more(s.graph, b.graph, h.graph, p, q, r);
    } else {
        growth::lemma_nodes_none(s.graph, r);
    }
}

proof fn lemma_columns_keep_links(s: DataState, repo: Seq<char>, schema: Seq<char>, table: TableDef, n: nat)
    ensures
        forall|kind: EdgeKind| #[trigger]
            is_counted(kind) ==> links(data::with_columns(s, repo, schema, table, n).counts, kind) == links(
                s.counts,
                kind,
            ),
    decreases n,
{
    if n > 0 {
        lemma_columns_keep_links(s, repo, schema, table, (n - 1) as nat);
    }
}

proof fn lemma_tables_keep_links(s: DataState, repo: Seq<char>, schema: SchemaModel, n: nat)
    ensures
        forall|kind: EdgeKind| #[trigger]
            is_counted(kind) ==> links(data::with_tables(s, repo, schema, n).counts, kind) == links(s.counts, kind),
    decreases n,
{
    if n > 0 {
        lemma_tables_keep_links(s, repo, schema, (n - 1) as nat);
        let t = data::with_tables(s, repo, schema, (n - 1) as nat);
        let table = schema.tables@[n - 1];
        let u = DataState {
            graph: t.graph.with_node(data::table_fact(repo, schema.path@, table.name@)),
            counts: DataCounts { tables: t.counts.tables + 1, ..t.counts },
        };
        lemma_columns_keep_links(u, repo, schema.path@, table, table.columns@.len());
    }
}

// ----------------------------------------------------------------------------------------------
// The plane
// ----------------------------------------------------------------------------------------------

/// The nodes of the data plane: every table and every column of every schema is one, and nothing else
/// is added; a node of the graph stays unless a table or a column has its identifier.
pub proof fn law_data_nodes(
    g: GraphView,
    repo: Seq<char>,
    schemas: Seq<SchemaModel>,
    sql: Seq<SqlFileView>,
    orm: Seq<OrmFileView>,
)
    ensures
        ({
            let h = data::data_plane(g, repo, schemas, sql, orm).graph;
            &&& forall|i: int, t: int, table: Seq<char>| #[trigger]
                table_named(schemas, i, t, table) ==> h.has(table_at(repo, schemas[i].path@, table))
            &&& forall|i: int, t: int, c: int, table: Seq<char>, column: Seq<char>| #[trigger]
                column_named(schemas, i, t, c, table, column) ==> h.has(
                    column_at(repo, schemas[i].path@, table, column),
                )
            &&& forall|x: NodeView| #[trigger]
                h.nodes.contains(x) ==> g.nodes.contains(x) || exists|i: int|
                    0 <= i < schemas.len() && schema_node(repo, #[trigger] schemas[i], x)
            &&& forall|x: NodeView| #[trigger]
                g.nodes.contains(x) && (forall|i: int, y: NodeView|
                    0 <= i < schemas.len() && #[trigger] schema_node(repo, schemas[i], y) ==> y.uid != x.uid)
                    ==> h.nodes.contains(x)
        }),
{
    let h = data::data_plane(g, repo, schemas, sql, orm).graph;
    let s = DataState { graph: g, counts: DataCounts::zero() };
    let a = data::with_schema_nodes(s, repo, schemas, schemas.len());
    let b = data::with_schema_edges(a, repo, schemas, schemas.len());
    let c = data::with_code_sql(b, repo, schemas, sql, sql.len());
    lemma_schema_nodes(s, repo, schemas, schemas.len());
    lemma_schema_edges(a, repo, schemas, schemas.len());
    lemma_sql(a.graph, b, repo, schemas, sql, sql.len());
    lemma_orm(a.graph, c, repo, schemas, orm, orm.len());
    assert(h.nodes == a.graph.nodes);
    assert(forall|u: Seq<char>| #[trigger] h.has(u) == a.graph.has(u));
    let r = |x: NodeView| exists|i: int| 0 <= i < schemas.len() && schema_node(repo, #[trigger] schemas[i], x);
    assert forall|i: int, t: int, table: Seq<char>| #[trigger] table_named(schemas, i, t, table) implies h.has(
        table_at(repo, schemas[i].path@, table),
    ) by {
        let x = declared(
            table_at(repo, schemas[i].path@, table),
            NodeKind::Table,
            table,
            table,
            schemas[i].path@,
        );
        assert(is_table_node(repo, schemas[i], t, x));
        assert(schema_node(repo, schemas[i], x));
        assert(r(x));
    }
    assert forall|i: int, t: int, c: int, table: Seq<char>, column: Seq<char>| #[trigger]
        column_named(schemas, i, t, c, table, column) implies h.has(
        column_at(repo, schemas[i].path@, table, column),
    ) by {
        let x = declared(
            column_at(repo, schemas[i].path@, table, column),
            NodeKind::Column,
            column,
            table + seq!['.'] + column,
            schemas[i].path@,
        );
        assert(is_column_node(repo, schemas[i], t, c, x));
        assert(schema_node(repo, schemas[i], x));
        assert(r(x));
    }
    assert forall|x: NodeView| #[trigger]
        g.nodes.contains(x) && (forall|i: int, y: NodeView|
            0 <= i < schemas.len() && #[trigger] schema_node(repo, schemas[i], y) ==> y.uid != x.uid) implies h.nodes.contains(
    x) by {
        if !h.nodes.contains(x) {
            let y = choose|y: NodeView| #[trigger] r(y) && y.uid == x.uid;
            let i = choose|i: int| 0 <= i < schemas.len() && schema_node(repo, #[trigger] schemas[i], y);
            assert(schema_node(repo, schemas[i], y));
        }
    }
}

/// The edges of the data plane: an edge is one of it exactly if the graph had it, or a schema declares
/// it, or a SQL literal or a model class of the code gives it. So every reference to a table that some
/// schema declares has its edge, and so has every model class that is a node.
pub proof fn law_data_edges(
    g: GraphView,
    repo: Seq<char>,
    schemas: Seq<SchemaModel>,
    sql: Seq<SqlFileView>,
    orm: Seq<OrmFileView>,
    e: EdgeView,
)
    ensures
        ({
            let h = data::data_plane(g, repo, schemas, sql, orm).graph;
            h.edges.contains(e) <==> {
                ||| g.edges.contains(e)
                ||| exists|i: int| 0 <= i < schemas.len() && #[trigger] schema_gives(repo, schemas, i, e)
                ||| exists|i: int| 0 <= i < sql.len() && sql_gives(h, repo, schemas, #[trigger] sql[i], e)
                ||| exists|i: int| 0 <= i < orm.len() && orm_gives(h, repo, schemas, #[trigger] orm[i], e)
            }
        }),
{
    let h = data::data_plane(g, repo, schemas, sql, orm).graph;
    let s = DataState { graph: g, counts: DataCounts::zero() };
    let a = data::with_schema_nodes(s, repo, schemas, schemas.len());
    let b = data::with_schema_edges(a, repo, schemas, schemas.len());
    let c = data::with_code_sql(b, repo, schemas, sql, sql.len());
    lemma_schema_nodes(s, repo, schemas, schemas.len());
    lemma_schema_edges(a, repo, schemas, schemas.len());
    let by_schema = |i: int, e: EdgeView| schema_gives(repo, schemas, i, e);
    let by_sql = |i: int, e: EdgeView| sql_gives(h, repo, schemas, sql[i], e);
    let by_orm = |i: int, e: EdgeView| orm_gives(h, repo, schemas, orm[i], e);
    lemma_sql(b.graph, b, repo, schemas, sql, sql.len());
    lemma_orm(c.graph, c, repo, schemas, orm, orm.len());
    assert(h.nodes == b.graph.nodes);
    lemma_sql(h, b, repo, schemas, sql, sql.len());
    lemma_orm(h, c, repo, schemas, orm, orm.len());
    assert(b.graph.edges.contains(e) == (g.edges.contains(e) || growth::given(by_schema, schemas.len() as int, e)));
    assert(c.graph.edges.contains(e) == (b.graph.edges.contains(e) || growth::given(by_sql, sql.len() as int, e)));
    assert(h.edges.contains(e) == (c.graph.edges.contains(e) || growth::given(by_orm, orm.len() as int, e)));
    if exists|i: int| 0 <= i < schemas.len() && #[trigger] schema_gives(repo, schemas, i, e) {
        let i = choose|i: int| 0 <= i < schemas.len() && #[trigger] schema_gives(repo, schemas, i, e);
        assert(by_schema(i, e));
    }
    if exists|i: int| 0 <= i < sql.len() && sql_gives(h, repo, schemas, #[trigger] sql[i], e) {
        let i = choose|i: int| 0 <= i < sql.len() && sql_gives(h, repo, schemas, #[trigger] sql[i], e);
        assert(by_sql(i, e));
    }
    if exists|i: int| 0 <= i < orm.len() && orm_gives(h, repo, schemas, #[trigger] orm[i], e) {
        let i = choose|i: int| 0 <= i < orm.len() && orm_gives(h, repo, schemas, #[trigger] orm[i], e);
        assert(by_orm(i, e));
    }
}

/// What is counted as linked is what is linked: there are as many foreign keys, reads, writes and model
/// classes among the linked as there are edges of that kind more.
pub proof fn law_data_linked(
    g: GraphView,
    repo: Seq<char>,
    schemas: Seq<SchemaModel>,
    sql: Seq<SqlFileView>,
    orm: Seq<OrmFileView>,
)
    ensures
        ({
            let d = data::data_plane(g, repo, schemas, sql, orm);
            let more = |kind: EdgeKind| growth::kind_count(d.graph.edges, kind) - growth::kind_count(g.edges, kind);
            &&& d.counts.fks_linked == more(EdgeKind::ForeignKey)
            &&& d.counts.reads_linked == more(EdgeKind::Reads)
            &&& d.counts.writes_linked == more(EdgeKind::Writes)
            &&& d.counts.models_linked == more(EdgeKind::MapsTo)
        }),
{
    let s = DataState { graph: g, counts: DataCounts::zero() };
    let a = data::with_schema_nodes(s, repo, schemas, schemas.len());
    let b = data::with_schema_edges(a, repo, schemas, schemas.len());
    let c = data::with_code_sql(b, repo, schemas, sql, sql.len());
    lemma_schema_nodes(s, repo, schemas, schemas.len());
    lemma_schema_edges(a, repo, schemas, schemas.len());
    lemma_sql(b.graph, b, repo, schemas, sql, sql.len());
    lemma_orm(c.graph, c, repo, schemas, orm, orm.len());
    assert(is_counted(EdgeKind::ForeignKey) && is_counted(EdgeKind::Reads) && is_counted(EdgeKind::Writes)
        && is_counted(EdgeKind::MapsTo));
}
proof fn lemma_skipped_prefix(a: Seq<SchemaModel>, b: Seq<SchemaModel>, n: nat)
    requires
        n <= a.len(),
        n <= b.len(),
        forall|i: int| 0 <= i < n ==> a[i] == b[i],
    ensures
        data::skipped(a, n) == data::skipped(b, n),
    decreases n,
{
    if n > 0 {
        lemma_skipped_prefix(a, b, (n - 1) as nat);
    }
}

/// A schema more adds the statements of it that were skipped.
pub proof fn law_skipped(schemas: Seq<SchemaModel>, schema: SchemaModel)
    ensures
        data::skipped(schemas.push(schema), schemas.len() + 1) == data::skipped(schemas, schemas.len())
            + schema.skipped_statements,
        data::skipped(schemas, 0) == 0,
{
    lemma_skipped_prefix(schemas.push(schema), schemas, schemas.len());
}

} // verus!
