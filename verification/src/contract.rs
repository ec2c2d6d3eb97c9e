//! The contract plane: operations, who produces them and who consumes them.
//!
//! A route does not name the operation that it implements: the link is a match of method and
//! normalized path. So a producer edge is an inference where one operation matches, an ambiguity
//! where several do, and absent where none does. A consumer edge keeps the tier of its match,
//! held to the band of its provenance, unless several APIs own the matched key.
use vstd::prelude::*;

use crate::analysis::{FileEntry, RawSymbol, ResolverEntry, RouteDecl};
use crate::code_plane;
use crate::lang;
use crate::model;
use crate::model::{
    Edge, EdgeKind, EdgeView, Graph, GraphView, Node, NodeKind, NodeView, Provenance, Span, Uid,
};
use crate::text;

verus! {

/// The method of a route that is declared without one.
pub const ROUTE_METHOD_ANY: &'static str = "ANY";

/// A producer link with one matching operation.
pub const CONF_PRODUCES_SINGLE: u32 = 800_000_000;

/// A producer link with several matching operations.
pub const CONF_PRODUCES_MULTI: u32 = 350_000_000;

/// A producer link by path alone, with one matching operation.
pub const CONF_PRODUCES_PATH_ONLY: u32 = 650_000_000;

/// The highest confidence of an inferred consumer link.
pub const CONSUMES_INFERRED_CEILING: u32 = 800_000_000;

/// The highest confidence of an ambiguous consumer link.
pub const AMBIGUOUS_CEILING: u32 = 390_000_000;

/// The lowest confidence of an extracted consumer link.
pub const CONSUMES_EXTRACTED_FLOOR: u32 = 950_000_000;

/// The confidence of a consumer link to one of several APIs that own its key.
pub const CONSUMES_AMBIGUOUS_FANOUT: u32 = 350_000_000;

/// The format of a contract.
#[derive(Clone, Copy, Debug, PartialEq, Eq, Structural)]
pub enum ContractFormat {
    OpenApi,
    Graphql,
    Grpc,
}

/// An operation that a contract declares. `key` identifies it across repositories.
#[derive(Debug, PartialEq, Eq)]
pub struct OperationDef {
    pub format: ContractFormat,
    pub method: String,
    pub path: String,
    pub norm_path: String,
    pub operation_id: Option<String>,
    pub key: String,
    pub spec_path: String,
}

impl Clone for OperationDef {
    fn clone(&self) -> (r: OperationDef)
        ensures
            r == *self,
    {
        OperationDef {
            format: self.format,
            method: self.method.clone(),
            path: self.path.clone(),
            norm_path: self.norm_path.clone(),
            operation_id: text::clone_opt(&self.operation_id),
            key: self.key.clone(),
            spec_path: self.spec_path.clone(),
        }
    }
}

// ----------------------------------------------------------------------------------------------
// Operations
// ----------------------------------------------------------------------------------------------

/// The kind of the node of an operation.
pub open spec fn kind_of(format: ContractFormat) -> NodeKind {
    match format {
        ContractFormat::OpenApi | ContractFormat::Grpc => NodeKind::ApiOperation,
        ContractFormat::Graphql => NodeKind::GraphqlField,
    }
}

/// The kind of the node of an operation.
pub fn node_kind_for(format: ContractFormat) -> (r: NodeKind)
    ensures
        r == kind_of(format),
{
    match format {
        ContractFormat::OpenApi | ContractFormat::Grpc => NodeKind::ApiOperation,
        ContractFormat::Graphql => NodeKind::GraphqlField,
    }
}

/// The name of the format in an identifier.
pub open spec fn format_name(format: ContractFormat) -> Seq<char> {
    match format {
        ContractFormat::OpenApi => "openapi"@,
        ContractFormat::Graphql => "graphql"@,
        ContractFormat::Grpc => "grpc"@,
    }
}

/// The name of the format in an identifier.
pub fn format_discriminator(format: ContractFormat) -> (r: &'static str)
    ensures
        r@ == format_name(format),
{
    match format {
        ContractFormat::OpenApi => "openapi",
        ContractFormat::Graphql => "graphql",
        ContractFormat::Grpc => "grpc",
    }
}

/// The identifier of an operation within its repository.
pub open spec fn local_uid(repo: Seq<char>, op: OperationDef) -> Seq<char> {
    model::uid_text("contract"@, repo, op.spec_path@, op.key@, ""@)
}

/// The identifier of an operation within its repository.
pub fn operation_uid(repo_name: &str, op: &OperationDef) -> (r: Uid)
    ensures
        r@ == local_uid(repo_name@, *op),
{
    Uid::new("contract", repo_name, op.spec_path.as_str(), op.key.as_str(), "")
}

/// The identifier of an operation across an estate: by API, format and key.
pub open spec fn canonical_uid(estate: Seq<char>, api_id: Seq<char>, format: ContractFormat, key: Seq<char>) -> Seq<char> {
    model::uid_text("contract"@, estate, api_id + "/"@ + format_name(format), key, ""@)
}

/// The identifier of an operation across an estate.
pub fn canonical_operation_uid(estate_name: &str, api_id: &str, format: ContractFormat, key: &str) -> (r: Uid)
    ensures
        r@ == canonical_uid(estate_name@, api_id@, format, key@),
{
    let slot = text::concat3(api_id, "/", format_discriminator(format));
    Uid::new("contract", estate_name, slot.as_str(), key, "")
}

/// The name of an operation: its id, else its method and path.
pub open spec fn operation_name(op: OperationDef) -> Seq<char> {
    match op.operation_id {
        Some(id) => id@,
        None => op.method@ + " "@ + op.path@,
    }
}

/// The name of an operation.
pub fn operation_name_of(op: &OperationDef) -> (r: String)
    ensures
        r@ == operation_name(*op),
{
    match &op.operation_id {
        Some(id) => id.clone(),
        None => text::concat3(op.method.as_str(), " ", op.path.as_str()),
    }
}

/// The node of an operation under an identifier.
pub open spec fn operation_node(uid: Seq<char>, op: OperationDef) -> NodeView {
    model::fact_node(uid, kind_of(op.format), operation_name(op), op.key@, op.path@, model::no_span())
}

/// The node of an operation under an identifier.
pub fn make_operation_node(uid: Uid, op: &OperationDef) -> (r: Node)
    ensures
        r@ == operation_node(uid@, *op),
{
    let name = operation_name_of(op);
    model::extracted_node(
        uid,
        node_kind_for(op.format),
        name.as_str(),
        op.key.as_str(),
        op.path.as_str(),
        Span::default(),
    )
}

/// The node of an operation across an estate.
pub fn canonical_operation_node(estate_name: &str, api_id: &str, op: &OperationDef) -> (r: Node)
    ensures
        r@ == operation_node(canonical_uid(estate_name@, api_id@, op.format, op.key@), *op),
{
    make_operation_node(canonical_operation_uid(estate_name, api_id, op.format, op.key.as_str()), op)
}

/// The graph with the nodes of the first `n` operations.
pub open spec fn with_operations(g: GraphView, repo: Seq<char>, ops: Seq<OperationDef>, n: nat) -> GraphView
    decreases n,
{
    if n == 0 {
        g
    } else {
        with_operations(g, repo, ops, (n - 1) as nat).with_node(
            operation_node(local_uid(repo, ops[n - 1]), ops[n - 1]),
        )
    }
}

// ----------------------------------------------------------------------------------------------
// Code nodes
// ----------------------------------------------------------------------------------------------

/// The node of a symbol of a file, under the language of the file.
pub open spec fn code_symbol(repo: Seq<char>, path: Seq<char>, fqn: Seq<char>) -> Seq<char> {
    model::uid_text(lang::language_or_ts(path), repo, path, fqn, ""@)
}

/// The node that a site of a file is attributed to, under the language of the file.
pub open spec fn code_enclosing(repo: Seq<char>, path: Seq<char>, enclosing: Seq<char>) -> Seq<char> {
    if enclosing.len() == 0 {
        code_symbol(repo, path, "<module>"@)
    } else {
        code_symbol(repo, path, enclosing)
    }
}

/// The node of a symbol of a file.
pub fn code_symbol_uid(repo_name: &str, path: &str, fqn: &str) -> (r: Uid)
    ensures
        r@ == code_symbol(repo_name@, path@, fqn@),
{
    Uid::new(lang::code_lang(path), repo_name, path, fqn, "")
}

/// The node that a site of a file is attributed to.
pub fn code_enclosing_uid(repo_name: &str, path: &str, enclosing_fqn: &str) -> (r: Uid)
    ensures
        r@ == code_enclosing(repo_name@, path@, enclosing_fqn@),
{
    if enclosing_fqn.unicode_len() == 0 {
        code_symbol_uid(repo_name, path, "<module>")
    } else {
        code_symbol_uid(repo_name, path, enclosing_fqn)
    }
}

/// Whether a symbol is a handler of this name; with `top` only at the top level.
pub open spec fn is_handler(sym: RawSymbol, handler: Seq<char>, top: bool) -> bool {
    code_plane::callable(sym.kind) && sym.name@ == handler && (top ==> sym.container_fqn is None)
}

/// The first handler of this name at or after `from`.
pub open spec fn handler_from(syms: Seq<RawSymbol>, handler: Seq<char>, top: bool, from: int) -> Option<Seq<char>>
    decreases syms.len() - from,
{
    if from >= syms.len() {
        None
    } else if is_handler(syms[from], handler, top) {
        Some(syms[from].fqn@)
    } else {
        handler_from(syms, handler, top, from + 1)
    }
}

/// The handler of this name: the first at the top level, else the first.
pub open spec fn best_handler(syms: Seq<RawSymbol>, handler: Seq<char>) -> Option<Seq<char>> {
    match handler_from(syms, handler, true, 0) {
        Some(fqn) => Some(fqn),
        None => handler_from(syms, handler, false, 0),
    }
}

/// The node that produces: the named handler where the file defines it and the graph has it, else
/// the enclosing symbol or module.
pub open spec fn handler_or_enclosing(
    g: GraphView,
    repo: Seq<char>,
    path: Seq<char>,
    syms: Seq<RawSymbol>,
    handler: Option<String>,
    enclosing: Seq<char>,
) -> Seq<char> {
    let named = match handler {
        Some(h) => best_handler(syms, h@),
        None => None,
    };
    match named {
        Some(fqn) => if g.has(code_symbol(repo, path, fqn)) {
            code_symbol(repo, path, fqn)
        } else {
            code_enclosing(repo, path, enclosing)
        },
        None => code_enclosing(repo, path, enclosing),
    }
}

fn find_handler(syms: &Vec<RawSymbol>, handler: &str, top: bool) -> (r: Option<usize>)
    ensures
        match r {
            Some(i) => i < syms@.len() && handler_from(syms@, handler@, top, 0) == Some(syms@[i as int].fqn@),
            None => handler_from(syms@, handler@, top, 0) is None,
        },
{
    let mut i: usize = 0;
    while i < syms.len()
        invariant
            i <= syms@.len(),
            handler_from(syms@, handler@, top, 0) == handler_from(syms@, handler@, top, i as int),
        decreases syms@.len() - i,
    {
        let sym = &syms[i];
        if (sym.kind == NodeKind::Function || sym.kind == NodeKind::Method) && text::same(
            sym.name.as_str(),
            handler,
        ) && (!top || sym.container_fqn.is_none()) {
            return Some(i);
        }
        i = i + 1;
    }
    None
}

/// The node that a producer edge starts from.
pub fn handler_or_enclosing_uid(
    g: &Graph,
    repo_name: &str,
    path: &str,
    syms: &Vec<RawSymbol>,
    handler_name: &Option<String>,
    enclosing_fqn: &str,
) -> (r: Uid)
    ensures
        r@ == handler_or_enclosing(g@, repo_name@, path@, syms@, *handler_name, enclosing_fqn@),
{
    match handler_name {
        Some(handler) => {
            let top = find_handler(syms, handler.as_str(), true);
            let found = match top {
                Some(i) => Some(i),
                None => find_handler(syms, handler.as_str(), false),
            };
            match found {
                Some(i) => {
                    let candidate = code_symbol_uid(repo_name, path, syms[i].fqn.as_str());
                    if g.has_node(&candidate) {
                        return candidate;
                    }
                },
                None => {},
            }
        },
        None => {},
    }
    code_enclosing_uid(repo_name, path, enclosing_fqn)
}

// ----------------------------------------------------------------------------------------------
// Producers
// ----------------------------------------------------------------------------------------------

/// Whether a route implements an operation: the same normalized path and, unless the route is
/// declared without a method, the same method.
pub open spec fn route_matches(route: RouteDecl, op: OperationDef) -> bool {
    op.norm_path@ == route.norm_path@ && (route.method@ == ROUTE_METHOD_ANY@ || op.method@ == route.method@)
}

/// Whether a resolver entry implements an operation: a GraphQL field of its type and name.
pub open spec fn resolver_matches(entry: ResolverEntry, op: OperationDef) -> bool {
    op.format == ContractFormat::Graphql && op.key@ == entry.op_type@ + "."@ + entry.field@
}

/// What declares a producer.
pub enum Declares {
    Route(RouteDecl),
    Resolver(ResolverEntry),
}

/// Whether a declaration implements an operation.
pub open spec fn implements(d: Declares, op: OperationDef) -> bool {
    match d {
        Declares::Route(route) => route_matches(route, op),
        Declares::Resolver(entry) => resolver_matches(entry, op),
    }
}

/// How many of the first `n` operations a declaration implements.
pub open spec fn match_count(d: Declares, ops: Seq<OperationDef>, n: nat) -> nat
    decreases n,
{
    if n == 0 {
        0
    } else {
        match_count(d, ops, (n - 1) as nat) + if implements(d, ops[n - 1]) { 1nat } else { 0 }
    }
}

/// How a producer edge counts, given how many operations match.
pub open spec fn producer_grade(d: Declares, count: nat) -> (Provenance, u32) {
    if count == 1 {
        (
            Provenance::Inferred,
            match d {
                Declares::Route(route) => if route.method@ == ROUTE_METHOD_ANY@ {
                    CONF_PRODUCES_PATH_ONLY
                } else {
                    CONF_PRODUCES_SINGLE
                },
                Declares::Resolver(_) => CONF_PRODUCES_SINGLE,
            },
        )
    } else {
        (Provenance::Ambiguous, CONF_PRODUCES_MULTI)
    }
}

/// The graph with an edge from `src` to each of the first `n` operations that match.
pub open spec fn with_produced(
    g: GraphView,
    repo: Seq<char>,
    d: Declares,
    src: Seq<char>,
    grade: (Provenance, u32),
    ops: Seq<OperationDef>,
    n: nat,
) -> GraphView
    decreases n,
{
    if n == 0 {
        g
    } else {
        let h = with_produced(g, repo, d, src, grade, ops, (n - 1) as nat);
        if implements(d, ops[n - 1]) {
            h.with_edge(model::edge_of(src, local_uid(repo, ops[n - 1]), EdgeKind::Produces, grade.0, grade.1))
        } else {
            h
        }
    }
}

/// The handler and the enclosing symbol of a declaration.
pub open spec fn declared_by(d: Declares) -> (Option<String>, Seq<char>) {
    match d {
        Declares::Route(route) => (route.handler_name, route.enclosing_fqn@),
        Declares::Resolver(entry) => (entry.handler_name, entry.enclosing_fqn@),
    }
}

/// The graph with the producer edges of a declaration.
pub open spec fn with_producer(g: GraphView, repo: Seq<char>, f: FileEntry, d: Declares, ops: Seq<OperationDef>) -> GraphView {
    let count = match_count(d, ops, ops.len());
    if count == 0 {
        g
    } else {
        let by = declared_by(d);
        let src = handler_or_enclosing(g, repo, f.path@, f.file.symbols@, by.0, by.1);
        with_produced(g, repo, d, src, producer_grade(d, count), ops, ops.len())
    }
}

/// The graph with the producers that the first `n` routes of a file declare.
pub open spec fn with_routes(g: GraphView, repo: Seq<char>, f: FileEntry, ops: Seq<OperationDef>, n: nat) -> GraphView
    decreases n,
{
    if n == 0 {
        g
    } else {
        with_producer(
            with_routes(g, repo, f, ops, (n - 1) as nat),
            repo,
            f,
            Declares::Route(f.file.routes@[n - 1]),
            ops,
        )
    }
}

/// The graph with the producers that the routes of the first `n` files declare.
pub open spec fn with_all_routes(g: GraphView, repo: Seq<char>, files: Seq<FileEntry>, ops: Seq<OperationDef>, n: nat) -> GraphView
    decreases n,
{
    if n == 0 {
        g
    } else {
        let f = files[n - 1];
        with_routes(with_all_routes(g, repo, files, ops, (n - 1) as nat), repo, f, ops, f.file.routes@.len())
    }
}

/// The graph with the producers that the first `n` resolver entries of a file declare.
pub open spec fn with_resolvers(g: GraphView, repo: Seq<char>, f: FileEntry, ops: Seq<OperationDef>, n: nat) -> GraphView
    decreases n,
{
    if n == 0 {
        g
    } else {
        with_producer(
            with_resolvers(g, repo, f, ops, (n - 1) as nat),
            repo,
            f,
            Declares::Resolver(f.file.resolver_entries@[n - 1]),
            ops,
        )
    }
}

/// The graph with the producers that the resolver entries of the first `n` files declare.
pub open spec fn with_all_resolvers(g: GraphView, repo: Seq<char>, files: Seq<FileEntry>, ops: Seq<OperationDef>, n: nat) -> GraphView
    decreases n,
{
    if n == 0 {
        g
    } else {
        let f = files[n - 1];
        with_resolvers(
            with_all_resolvers(g, repo, files, ops, (n - 1) as nat),
            repo,
            f,
            ops,
            f.file.resolver_entries@.len(),
        )
    }
}

fn route_implements(route: &RouteDecl, op: &OperationDef) -> (r: bool)
    ensures
        r == route_matches(*route, *op),
{
    text::same(op.norm_path.as_str(), route.norm_path.as_str()) && (text::same(
        route.method.as_str(),
        ROUTE_METHOD_ANY,
    ) || text::same(op.method.as_str(), route.method.as_str()))
}

fn add_route(g: &mut Graph, repo_name: &str, entry: &FileEntry, route: &RouteDecl, ops: &Vec<OperationDef>)
    ensures
        final(g)@ == with_producer(old(g)@, repo_name@, *entry, Declares::Route(*route), ops@),
{
    let ghost d = Declares::Route(*route);
    let mut count: usize = 0;
    let mut i: usize = 0;
    while i < ops.len()
        invariant
            i <= ops@.len(),
            count <= i,
            d == Declares::Route(*route),
            count == match_count(d, ops@, i as nat),
        decreases ops@.len() - i,
    {
        if route_implements(route, &ops[i]) {
            count = count + 1;
        }
        i = i + 1;
    }
    if count == 0 {
        return ;
    }
    let src = handler_or_enclosing_uid(
        g,
        repo_name,
        entry.path.as_str(),
        &entry.file.symbols,
        &route.handler_name,
        route.enclosing_fqn.as_str(),
    );
    let any = text::same(route.method.as_str(), ROUTE_METHOD_ANY);
    let (prov, conf) = if count == 1 {
        if any {
            (Provenance::Inferred, CONF_PRODUCES_PATH_ONLY)
        } else {
            (Provenance::Inferred, CONF_PRODUCES_SINGLE)
        }
    } else {
        (Provenance::Ambiguous, CONF_PRODUCES_MULTI)
    };
    let ghost grade = (prov, conf);
    let ghost before = g@;
    let mut j: usize = 0;
    while j < ops.len()
        invariant
            j <= ops@.len(),
            d == Declares::Route(*route),
            grade == (prov, conf),
            g@ == with_produced(before, repo_name@, d, src@, grade, ops@, j as nat),
        decreases ops@.len() - j,
    {
        if route_implements(route, &ops[j]) {
            let dst = operation_uid(repo_name, &ops[j]);
            g.add_edge(Edge::make(&src, &dst, EdgeKind::Produces, prov, conf));
        }
        j = j + 1;
    }
}

fn resolver_implements(entry: &ResolverEntry, key: &str, op: &OperationDef) -> (r: bool)
    requires
        key@ == entry.op_type@ + "."@ + entry.field@,
    ensures
        r == resolver_matches(*entry, *op),
{
    op.format == ContractFormat::Graphql && text::same(op.key.as_str(), key)
}

fn add_resolver(g: &mut Graph, repo_name: &str, entry: &FileEntry, res: &ResolverEntry, ops: &Vec<OperationDef>)
    ensures
        final(g)@ == with_producer(old(g)@, repo_name@, *entry, Declares::Resolver(*res), ops@),
{
    let ghost d = Declares::Resolver(*res);
    let key = text::concat3(res.op_type.as_str(), ".", res.field.as_str());
    let mut count: usize = 0;
    let mut i: usize = 0;
    while i < ops.len()
        invariant
            i <= ops@.len(),
            count <= i,
            key@ == res.op_type@ + "."@ + res.field@,
            d == Declares::Resolver(*res),
            count == match_count(d, ops@, i as nat),
        decreases ops@.len() - i,
    {
        if resolver_implements(res, key.as_str(), &ops[i]) {
            count = count + 1;
        }
        i = i + 1;
    }
    if count == 0 {
        return ;
    }
    let src = handler_or_enclosing_uid(
        g,
        repo_name,
        entry.path.as_str(),
        &entry.file.symbols,
        &res.handler_name,
        res.enclosing_fqn.as_str(),
    );
    let (prov, conf) = if count == 1 {
        (Provenance::Inferred, CONF_PRODUCES_SINGLE)
    } else {
        (Provenance::Ambiguous, CONF_PRODUCES_MULTI)
    };
    let ghost grade = (prov, conf);
    let ghost before = g@;
    let mut j: usize = 0;
    while j < ops.len()
        invariant
            j <= ops@.len(),
            key@ == res.op_type@ + "."@ + res.field@,
            d == Declares::Resolver(*res),
            grade == (prov, conf),
            g@ == with_produced(before, repo_name@, d, src@, grade, ops@, j as nat),
        decreases ops@.len() - j,
    {
        if resolver_implements(res, key.as_str(), &ops[j]) {
            let dst = operation_uid(repo_name, &ops[j]);
            g.add_edge(Edge::make(&src, &dst, EdgeKind::Produces, prov, conf));
        }
        j = j + 1;
    }
}

/// The graph with the operations of a repository and the routes that implement them.
pub open spec fn producer_plane(g: GraphView, repo: Seq<char>, files: Seq<FileEntry>, ops: Seq<OperationDef>) -> GraphView {
    with_all_routes(with_operations(g, repo, ops, ops.len()), repo, files, ops, files.len())
}

/// Adds the operations of a repository and the routes that implement them.
pub fn build_producer_plane(g: &mut Graph, repo_name: &str, analyzed: &Vec<FileEntry>, operations: &Vec<OperationDef>)
    ensures
        final(g)@ == producer_plane(old(g)@, repo_name@, analyzed@, operations@),
{
    let ghost start = g@;
    let mut o: usize = 0;
    while o < operations.len()
        invariant
            o <= operations@.len(),
            g@ == with_operations(start, repo_name@, operations@, o as nat),
        decreases operations@.len() - o,
    {
        let op = &operations[o];
        g.add_node(make_operation_node(operation_uid(repo_name, op), op));
        o = o + 1;
    }
    let ghost base = g@;
    let mut i: usize = 0;
    while i < analyzed.len()
        invariant
            i <= analyzed@.len(),
            g@ == with_all_routes(base, repo_name@, analyzed@, operations@, i as nat),
        decreases analyzed@.len() - i,
    {
        let entry = &analyzed[i];
        let ghost inner = g@;
        let mut j: usize = 0;
        while j < entry.file.routes.len()
            invariant
                j <= entry.file.routes@.len(),
                g@ == with_routes(inner, repo_name@, *entry, operations@, j as nat),
            decreases entry.file.routes@.len() - j,
        {
            add_route(g, repo_name, entry, &entry.file.routes[j], operations);
            j = j + 1;
        }
        i = i + 1;
    }
}

/// Adds the resolver entries that implement the GraphQL fields of a repository.
pub fn build_graphql_producer_plane(
    g: &mut Graph,
    repo_name: &str,
    analyzed: &Vec<FileEntry>,
    operations: &Vec<OperationDef>,
)
    ensures
        final(g)@ == with_all_resolvers(old(g)@, repo_name@, analyzed@, operations@, analyzed@.len()),
{
    let ghost base = g@;
    let mut i: usize = 0;
    while i < analyzed.len()
        invariant
            i <= analyzed@.len(),
            g@ == with_all_resolvers(base, repo_name@, analyzed@, operations@, i as nat),
        decreases analyzed@.len() - i,
    {
        let entry = &analyzed[i];
        let ghost inner = g@;
        let mut j: usize = 0;
        while j < entry.file.resolver_entries.len()
            invariant
                j <= entry.file.resolver_entries@.len(),
                g@ == with_resolvers(inner, repo_name@, *entry, operations@, j as nat),
            decreases entry.file.resolver_entries@.len() - j,
        {
            add_resolver(g, repo_name, entry, &entry.file.resolver_entries[j], operations);
            j = j + 1;
        }
        i = i + 1;
    }
}

// ----------------------------------------------------------------------------------------------
// Consumers
// ----------------------------------------------------------------------------------------------

/// An operation that a consumer signal matched, by format and key, and how well.
#[derive(Debug, PartialEq, Eq)]
pub struct ConsumerLink {
    pub op_key: String,
    pub format: ContractFormat,
    pub provenance: Provenance,
    pub confidence: u32,
}

/// An outgoing HTTP call or an ordinary call, with the operations that it matched.
#[derive(Debug, PartialEq, Eq)]
pub struct CallSignal {
    pub enclosing_fqn: String,
    pub links: Vec<ConsumerLink>,
}

/// What reading a GraphQL document gave.
#[derive(Debug, PartialEq, Eq)]
pub enum DocReading {
    /// It is no GraphQL.
    Unparsed,
    /// For each root field the operations that it matched, and the number of root-level fragments
    /// that were not expanded.
    Parsed { fields: Vec<Vec<ConsumerLink>>, unresolved_root_spreads: usize },
}

/// A GraphQL document, with the operations that its root fields matched.
#[derive(Debug, PartialEq, Eq)]
pub struct DocSignal {
    pub enclosing_fqn: String,
    pub interpolation_free: bool,
    pub tagged: bool,
    pub reading: DocReading,
}

/// The consumer signals of a file.
#[derive(Debug, PartialEq, Eq)]
pub struct FileSignals {
    pub path: String,
    pub http: Vec<CallSignal>,
    pub calls: Vec<CallSignal>,
    pub docs: Vec<DocSignal>,
}

/// A node that owns a key: several where APIs share it.
#[derive(Debug, PartialEq, Eq)]
pub struct KeyOwner {
    pub format: ContractFormat,
    pub key: String,
    pub uid: Uid,
}

/// The value of a [`KeyOwner`].
#[verifier::ext_equal]
pub struct OwnerView {
    pub format: ContractFormat,
    pub key: Seq<char>,
    pub uid: Seq<char>,
}

impl View for KeyOwner {
    type V = OwnerView;

    open spec fn view(&self) -> OwnerView {
        OwnerView { format: self.format, key: self.key@, uid: self.uid@ }
    }
}

/// The views of a sequence of owners.
pub open spec fn owner_views(v: Seq<KeyOwner>) -> Seq<OwnerView> {
    Seq::new(v.len(), |i: int| v[i]@)
}

/// A pair of identifiers.
#[derive(Debug, PartialEq, Eq)]
pub struct UidPair {
    pub src: Uid,
    pub dst: Uid,
}

/// The views of a sequence of pairs.
pub open spec fn pair_views(v: Seq<UidPair>) -> Seq<(Seq<char>, Seq<char>)> {
    Seq::new(v.len(), |i: int| (v[i].src@, v[i].dst@))
}

/// A graph under linking, with the consumer edges that it has.
pub struct LinkState {
    pub graph: GraphView,
    pub linked: Seq<(Seq<char>, Seq<char>)>,
}

/// Whether an owner owns the key of a link.
pub open spec fn owns(o: OwnerView, link: ConsumerLink) -> bool {
    o.format == link.format && o.key == link.op_key@
}

/// How many of the first `n` owners own the key of a link.
pub open spec fn owner_count(owners: Seq<OwnerView>, link: ConsumerLink, n: nat) -> nat
    decreases n,
{
    if n == 0 {
        0
    } else {
        owner_count(owners, link, (n - 1) as nat) + if owns(owners[n - 1], link) { 1nat } else { 0 }
    }
}

/// How a consumer edge counts: as an ambiguity where several owners share the key, else as its
/// link, held to the band of its provenance.
pub open spec fn consumer_grade(link: ConsumerLink, fan_out: bool) -> (Provenance, u32) {
    if fan_out {
        (Provenance::Ambiguous, CONSUMES_AMBIGUOUS_FANOUT)
    } else {
        (
            link.provenance,
            match link.provenance {
                Provenance::Ambiguous => if link.confidence < AMBIGUOUS_CEILING {
                    link.confidence
                } else {
                    AMBIGUOUS_CEILING
                },
                Provenance::Extracted => if link.confidence < CONSUMES_EXTRACTED_FLOOR {
                    CONSUMES_EXTRACTED_FLOOR
                } else if link.confidence > model::CERTAIN {
                    model::CERTAIN
                } else {
                    link.confidence
                },
                _ => if link.confidence < CONSUMES_INFERRED_CEILING {
                    link.confidence
                } else {
                    CONSUMES_INFERRED_CEILING
                },
            },
        )
    }
}

/// How a consumer edge counts.
pub fn grade_consumer(link: &ConsumerLink, fan_out: bool) -> (r: (Provenance, u32))
    ensures
        r == consumer_grade(*link, fan_out),
{
    if fan_out {
        return (Provenance::Ambiguous, CONSUMES_AMBIGUOUS_FANOUT);
    }
    let c: u32 = match link.provenance {
        Provenance::Ambiguous => if link.confidence < AMBIGUOUS_CEILING {
            link.confidence
        } else {
            AMBIGUOUS_CEILING
        },
        Provenance::Extracted => if link.confidence < CONSUMES_EXTRACTED_FLOOR {
            CONSUMES_EXTRACTED_FLOOR
        } else if link.confidence > model::CERTAIN {
            model::CERTAIN
        } else {
            link.confidence
        },
        _ => if link.confidence < CONSUMES_INFERRED_CEILING {
            link.confidence
        } else {
            CONSUMES_INFERRED_CEILING
        },
    };
    (link.provenance, c)
}

/// The state with an edge to each of the first `n` owners of a link that is a node and that the
/// consumer is not linked to yet.
pub open spec fn with_owners(
    s: LinkState,
    consumer: Seq<char>,
    link: ConsumerLink,
    owners: Seq<OwnerView>,
    fan_out: bool,
    n: nat,
) -> LinkState
    decreases n,
{
    if n == 0 {
        s
    } else {
        let t = with_owners(s, consumer, link, owners, fan_out, (n - 1) as nat);
        let o = owners[n - 1];
        if owns(o, link) && t.graph.has(o.uid) && !t.linked.contains((consumer, o.uid)) {
            let grade = consumer_grade(link, fan_out);
            LinkState {
                graph: t.graph.with_edge(
                    model::edge_of(consumer, o.uid, EdgeKind::Consumes, grade.0, grade.1),
                ),
                linked: t.linked.push((consumer, o.uid)),
            }
        } else {
            t
        }
    }
}

/// The state with the edges of the first `n` links of a consumer.
pub open spec fn with_links(
    s: LinkState,
    consumer: Seq<char>,
    links: Seq<ConsumerLink>,
    owners: Seq<OwnerView>,
    n: nat,
) -> LinkState
    decreases n,
{
    if n == 0 {
        s
    } else {
        let t = with_links(s, consumer, links, owners, (n - 1) as nat);
        let link = links[n - 1];
        with_owners(t, consumer, link, owners, owner_count(owners, link, owners.len()) > 1, owners.len())
    }
}

/// The state with the edges of a consumer, which must be a node.
pub open spec fn with_consumer(s: LinkState, consumer: Seq<char>, links: Seq<ConsumerLink>, owners: Seq<OwnerView>) -> LinkState {
    if s.graph.has(consumer) {
        with_links(s, consumer, links, owners, links.len())
    } else {
        s
    }
}

/// The state with the edges of the first `n` calls of a file.
pub open spec fn with_signals(
    s: LinkState,
    repo: Seq<char>,
    path: Seq<char>,
    signals: Seq<CallSignal>,
    owners: Seq<OwnerView>,
    n: nat,
) -> LinkState
    decreases n,
{
    if n == 0 {
        s
    } else {
        let sig = signals[n - 1];
        with_consumer(
            with_signals(s, repo, path, signals, owners, (n - 1) as nat),
            code_enclosing(repo, path, sig.enclosing_fqn@),
            sig.links@,
            owners,
        )
    }
}

/// The state with the edges of the first `n` root fields of a document.
pub open spec fn with_fields(
    s: LinkState,
    consumer: Seq<char>,
    fields: Seq<Vec<ConsumerLink>>,
    owners: Seq<OwnerView>,
    n: nat,
) -> LinkState
    decreases n,
{
    if n == 0 {
        s
    } else {
        with_consumer(
            with_fields(s, consumer, fields, owners, (n - 1) as nat),
            consumer,
            fields[n - 1]@,
            owners,
        )
    }
}

/// The state with the edges of a document: none where it is interpolated or no GraphQL.
pub open spec fn with_doc(s: LinkState, repo: Seq<char>, path: Seq<char>, doc: DocSignal, owners: Seq<OwnerView>) -> LinkState {
    match doc.reading {
        DocReading::Parsed { fields, .. } => if doc.interpolation_free {
            with_fields(s, code_enclosing(repo, path, doc.enclosing_fqn@), fields@, owners, fields@.len())
        } else {
            s
        },
        DocReading::Unparsed => s,
    }
}

/// The state with the edges of the first `n` documents of a file.
pub open spec fn with_docs(
    s: LinkState,
    repo: Seq<char>,
    path: Seq<char>,
    docs: Seq<DocSignal>,
    owners: Seq<OwnerView>,
    n: nat,
) -> LinkState
    decreases n,
{
    if n == 0 {
        s
    } else {
        with_doc(with_docs(s, repo, path, docs, owners, (n - 1) as nat), repo, path, docs[n - 1], owners)
    }
}

/// The state with the consumer edges of a file: of its HTTP calls, its calls and its documents.
pub open spec fn with_file_signals(s: LinkState, repo: Seq<char>, f: FileSignals, owners: Seq<OwnerView>) -> LinkState {
    let a = with_signals(s, repo, f.path@, f.http@, owners, f.http@.len());
    let b = with_signals(a, repo, f.path@, f.calls@, owners, f.calls@.len());
    with_docs(b, repo, f.path@, f.docs@, owners, f.docs@.len())
}

/// The state with the consumer edges of the first `n` files.
pub open spec fn with_consumers(
    s: LinkState,
    repo: Seq<char>,
    files: Seq<FileSignals>,
    owners: Seq<OwnerView>,
    n: nat,
) -> LinkState
    decreases n,
{
    if n == 0 {
        s
    } else {
        with_file_signals(with_consumers(s, repo, files, owners, (n - 1) as nat), repo, files[n - 1], owners)
    }
}

/// The state of a graph and its consumer pairs.
pub open spec fn link_state(g: Graph, linked: Seq<UidPair>) -> LinkState {
    LinkState { graph: g@, linked: pair_views(linked) }
}

fn is_linked(linked: &Vec<UidPair>, src: &Uid, dst: &Uid) -> (r: bool)
    ensures
        r == pair_views(linked@).contains((src@, dst@)),
{
    let mut i: usize = 0;
    while i < linked.len()
        invariant
            i <= linked@.len(),
            forall|j: int| 0 <= j < i ==> #[trigger] pair_views(linked@)[j] != (src@, dst@),
        decreases linked@.len() - i,
    {
        assert(pair_views(linked@)[i as int] == (linked@[i as int].src@, linked@[i as int].dst@));
        if linked[i].src.same(src) && linked[i].dst.same(dst) {
            return true;
        }
        i = i + 1;
    }
    false
}

fn add_link(g: &mut Graph, linked: &mut Vec<UidPair>, consumer: &Uid, link: &ConsumerLink, owners: &Vec<KeyOwner>)
    ensures
        link_state(*final(g), final(linked)@) == with_owners(
            link_state(*old(g), old(linked)@),
            consumer@,
            *link,
            owner_views(owners@),
            owner_count(owner_views(owners@), *link, owners@.len()) > 1,
            owners@.len(),
        ),
{
    let ghost ov = owner_views(owners@);
    let ghost start = link_state(*g, linked@);
    let mut count: usize = 0;
    let mut i: usize = 0;
    while i < owners.len()
        invariant
            ov == owner_views(owners@),
            i <= owners@.len(),
            count <= i,
            count == owner_count(ov, *link, i as nat),
        decreases owners@.len() - i,
    {
        assert(ov[i as int] == owners@[i as int]@);
        if owners[i].format == link.format && text::same(owners[i].key.as_str(), link.op_key.as_str()) {
            count = count + 1;
        }
        i = i + 1;
    }
    let fan_out = count > 1;
    let (prov, conf) = grade_consumer(link, fan_out);
    let mut j: usize = 0;
    while j < owners.len()
        invariant
            ov == owner_views(owners@),
            j <= owners@.len(),
            (prov, conf) == consumer_grade(*link, fan_out),
            link_state(*g, linked@) == with_owners(start, consumer@, *link, ov, fan_out, j as nat),
        decreases owners@.len() - j,
    {
        let o = &owners[j];
        assert(ov[j as int] == o@);
        if o.format == link.format && text::same(o.key.as_str(), link.op_key.as_str()) && g.has_node(&o.uid)
            && !is_linked(linked, consumer, &o.uid) {
            let ghost before = pair_views(linked@);
            linked.push(UidPair { src: consumer.clone(), dst: o.uid.clone() });
            assert(pair_views(linked@) =~= before.push((consumer@, o.uid@)));
            g.add_edge(Edge::make(consumer, &o.uid, EdgeKind::Consumes, prov, conf));
        }
        j = j + 1;
    }
}

fn add_consumer_links(
    g: &mut Graph,
    linked: &mut Vec<UidPair>,
    consumer: &Uid,
    links: &Vec<ConsumerLink>,
    owners: &Vec<KeyOwner>,
)
    ensures
        link_state(*final(g), final(linked)@) == with_consumer(
            link_state(*old(g), old(linked)@),
            consumer@,
            links@,
            owner_views(owners@),
        ),
{
    if !g.has_node(consumer) {
        return ;
    }
    let ghost start = link_state(*g, linked@);
    let mut i: usize = 0;
    while i < links.len()
        invariant
            i <= links@.len(),
            link_state(*g, linked@) == with_links(start, consumer@, links@, owner_views(owners@), i as nat),
        decreases links@.len() - i,
    {
        add_link(g, linked, consumer, &links[i], owners);
        i = i + 1;
    }
}

fn add_signals(
    g: &mut Graph,
    linked: &mut Vec<UidPair>,
    repo_name: &str,
    path: &str,
    signals: &Vec<CallSignal>,
    owners: &Vec<KeyOwner>,
)
    ensures
        link_state(*final(g), final(linked)@) == with_signals(
            link_state(*old(g), old(linked)@),
            repo_name@,
            path@,
            signals@,
            owner_views(owners@),
            signals@.len(),
        ),
{
    let ghost start = link_state(*g, linked@);
    let mut i: usize = 0;
    while i < signals.len()
        invariant
            i <= signals@.len(),
            link_state(*g, linked@) == with_signals(
                start,
                repo_name@,
                path@,
                signals@,
                owner_views(owners@),
                i as nat,
            ),
        decreases signals@.len() - i,
    {
        let sig = &signals[i];
        let consumer = code_enclosing_uid(repo_name, path, sig.enclosing_fqn.as_str());
        add_consumer_links(g, linked, &consumer, &sig.links, owners);
        i = i + 1;
    }
}

fn add_doc(
    g: &mut Graph,
    linked: &mut Vec<UidPair>,
    repo_name: &str,
    path: &str,
    doc: &DocSignal,
    owners: &Vec<KeyOwner>,
)
    ensures
        link_state(*final(g), final(linked)@) == with_doc(
            link_state(*old(g), old(linked)@),
            repo_name@,
            path@,
            *doc,
            owner_views(owners@),
        ),
{
    if !doc.interpolation_free {
        return ;
    }
    match &doc.reading {
        DocReading::Unparsed => {},
        DocReading::Parsed { fields, .. } => {
            let consumer = code_enclosing_uid(repo_name, path, doc.enclosing_fqn.as_str());
            let ghost start = link_state(*g, linked@);
            let mut i: usize = 0;
            while i < fields.len()
                invariant
                    i <= fields@.len(),
                    link_state(*g, linked@) == with_fields(
                        start,
                        consumer@,
                        fields@,
                        owner_views(owners@),
                        i as nat,
                    ),
                decreases fields@.len() - i,
            {
                add_consumer_links(g, linked, &consumer, &fields[i], owners);
                i = i + 1;
            }
        },
    }
}

/// Adds the consumer edges of a set of files. `owners` gives the nodes that own a key, and
/// `existing` the consumer edges that the graph has, which grows with those that are added.
pub fn link_consumers_into(
    g: &mut Graph,
    repo_name: &str,
    signals: &Vec<FileSignals>,
    owners: &Vec<KeyOwner>,
    existing: &mut Vec<UidPair>,
)
    ensures
        link_state(*final(g), final(existing)@) == with_consumers(
            link_state(*old(g), old(existing)@),
            repo_name@,
            signals@,
            owner_views(owners@),
            signals@.len(),
        ),
{
    let ghost start = link_state(*g, existing@);
    let mut i: usize = 0;
    while i < signals.len()
        invariant
            i <= signals@.len(),
            link_state(*g, existing@) == with_consumers(
                start,
                repo_name@,
                signals@,
                owner_views(owners@),
                i as nat,
            ),
        decreases signals@.len() - i,
    {
        let f = &signals[i];
        add_signals(g, existing, repo_name, f.path.as_str(), &f.http, owners);
        add_signals(g, existing, repo_name, f.path.as_str(), &f.calls, owners);
        let ghost mid = link_state(*g, existing@);
        let mut d: usize = 0;
        while d < f.docs.len()
            invariant
                d <= f.docs@.len(),
                link_state(*g, existing@) == with_docs(
                    mid,
                    repo_name@,
                    f.path@,
                    f.docs@,
                    owner_views(owners@),
                    d as nat,
                ),
            decreases f.docs@.len() - d,
        {
            add_doc(g, existing, repo_name, f.path.as_str(), &f.docs[d], owners);
            d = d + 1;
        }
        i = i + 1;
    }
}

/// Whether a key has an owner.
pub open spec fn has_owner(owners: Seq<OwnerView>, format: ContractFormat, key: Seq<char>) -> bool {
    exists|i: int| 0 <= i < owners.len() && (#[trigger] owners[i]).format == format && owners[i].key == key
}

/// The owners of the first `n` operations of a repository: the first operation of a key owns it.
pub open spec fn local_owners(repo: Seq<char>, ops: Seq<OperationDef>, n: nat) -> Seq<OwnerView>
    decreases n,
{
    if n == 0 {
        Seq::empty()
    } else {
        let rest = local_owners(repo, ops, (n - 1) as nat);
        let op = ops[n - 1];
        if has_owner(rest, op.format, op.key@) {
            rest
        } else {
            rest.push(OwnerView { format: op.format, key: op.key@, uid: local_uid(repo, op) })
        }
    }
}

/// The owners of the keys of a repository.
pub fn local_key_to_uid(repo_name: &str, operations: &Vec<OperationDef>) -> (r: Vec<KeyOwner>)
    ensures
        owner_views(r@) == local_owners(repo_name@, operations@, operations@.len()),
{
    let mut owners: Vec<KeyOwner> = Vec::new();
    assert(owner_views(owners@) =~= Seq::<OwnerView>::empty());
    let mut i: usize = 0;
    while i < operations.len()
        invariant
            i <= operations@.len(),
            owner_views(owners@) == local_owners(repo_name@, operations@, i as nat),
        decreases operations@.len() - i,
    {
        let op = &operations[i];
        let ghost before = owner_views(owners@);
        let mut found = false;
        let mut j: usize = 0;
        while j < owners.len() && !found
            invariant
                j <= owners@.len(),
                before == owner_views(owners@),
                found ==> has_owner(before, op.format, op.key@),
                !found ==> forall|k: int|
                    0 <= k < j ==> !((#[trigger] before[k]).format == op.format && before[k].key == op.key@),
            decreases owners@.len() - j,
        {
            assert(before[j as int] == owners@[j as int]@);
            if owners[j].format == op.format && text::same(owners[j].key.as_str(), op.key.as_str()) {
                found = true;
            }
            j = j + 1;
        }
        if !found {
            let o = KeyOwner { format: op.format, key: op.key.clone(), uid: operation_uid(repo_name, op) };
            let ghost ov = o@;
            owners.push(o);
            assert(owner_views(owners@) =~= before.push(ov));
        }
        i = i + 1;
    }
    owners
}

/// The contract plane of a repository on top of `g`.
pub open spec fn contract_plane(
    g: GraphView,
    repo: Seq<char>,
    files: Seq<FileEntry>,
    ops: Seq<OperationDef>,
    signals: Seq<FileSignals>,
) -> GraphView {
    let produced = with_all_resolvers(producer_plane(g, repo, files, ops), repo, files, ops, files.len());
    with_consumers(
        LinkState { graph: produced, linked: Seq::empty() },
        repo,
        signals,
        local_owners(repo, ops, ops.len()),
        signals.len(),
    ).graph
}

/// Adds the contract plane of a repository: its operations, the producers that its routes and
/// resolver entries declare, and the consumers that its signals name. `signals` are the consumer
/// signals of the files, matched against `operations`.
pub fn build_contract_plane(
    g: &mut Graph,
    repo_name: &str,
    analyzed: &Vec<FileEntry>,
    operations: &Vec<OperationDef>,
    signals: &Vec<FileSignals>,
)
    ensures
        final(g)@ == contract_plane(old(g)@, repo_name@, analyzed@, operations@, signals@),
{
    build_producer_plane(g, repo_name, analyzed, operations);
    build_graphql_producer_plane(g, repo_name, analyzed, operations);
    let owners = local_key_to_uid(repo_name, operations);
    let mut existing: Vec<UidPair> = Vec::new();
    assert(pair_views(existing@) =~= Seq::<(Seq<char>, Seq<char>)>::empty());
    link_consumers_into(g, repo_name, signals, &owners, &mut existing);
}

/// The code plane of a set of files, by names alone, with the contract plane on top.
pub fn assemble_graph_with_contracts(
    analyzed: &Vec<FileEntry>,
    repo_name: &str,
    operations: &Vec<OperationDef>,
    signals: &Vec<FileSignals>,
) -> (r: Graph)
    ensures
        r@ == contract_plane(
            code_plane::code_plane(repo_name@, analyzed@, None, Seq::empty()).0,
            repo_name@,
            analyzed@,
            operations@,
            signals@,
        ),
{
    let mut g = code_plane::assemble_graph(analyzed, repo_name);
    build_contract_plane(&mut g, repo_name, analyzed, operations, signals);
    g
}

// ----------------------------------------------------------------------------------------------
// Laws
// ----------------------------------------------------------------------------------------------

/// Whether a match says how it was learned in a way that has a grade: read off the source, inferred
/// with enough to go by, or ambiguous.
pub open spec fn gradable(link: ConsumerLink) -> bool {
    match link.provenance {
        Provenance::Extracted | Provenance::Ambiguous => true,
        Provenance::Inferred => link.confidence >= 400_000_000,
        _ => false,
    }
}

/// Whether every match of a list has a grade.
pub open spec fn all_gradable(links: Seq<ConsumerLink>) -> bool {
    forall|i: int| 0 <= i < links.len() ==> gradable(#[trigger] links[i])
}

/// Whether every match of a list of calls has a grade.
pub open spec fn calls_gradable(signals: Seq<CallSignal>) -> bool {
    forall|i: int| 0 <= i < signals.len() ==> all_gradable((#[trigger] signals[i]).links@)
}

/// Whether every match of a document has a grade.
pub open spec fn doc_gradable(doc: DocSignal) -> bool {
    match doc.reading {
        DocReading::Parsed { fields, .. } => forall|i: int|
            0 <= i < fields@.len() ==> all_gradable((#[trigger] fields@[i])@),
        DocReading::Unparsed => true,
    }
}

/// Whether every match of a file has a grade.
pub open spec fn file_gradable(f: FileSignals) -> bool {
    &&& calls_gradable(f.http@)
    &&& calls_gradable(f.calls@)
    &&& forall|i: int| 0 <= i < f.docs@.len() ==> doc_gradable(#[trigger] f.docs@[i])
}

/// Whether every match of a list of files has a grade.
pub open spec fn signals_gradable(files: Seq<FileSignals>) -> bool {
    forall|i: int| 0 <= i < files.len() ==> file_gradable(#[trigger] files[i])
}

/// Whether the operations are nodes of `g`.
pub open spec fn shows_operations(g: GraphView, repo: Seq<char>, ops: Seq<OperationDef>, n: nat) -> bool {
    forall|i: int| 0 <= i < n ==> g.has(local_uid(repo, #[trigger] ops[i]))
}

proof fn lemma_operations_kept(g: GraphView, h: GraphView, repo: Seq<char>, ops: Seq<OperationDef>, n: nat)
    requires
        model::extends(g, h),
        n <= ops.len(),
        shows_operations(g, repo, ops, n),
    ensures
        shows_operations(h, repo, ops, n),
{
    assert forall|i: int| 0 <= i < n implies h.has(local_uid(repo, #[trigger] ops[i])) by {
        assert(g.has(local_uid(repo, ops[i])));
    }
}

proof fn lemma_operations(g: GraphView, repo: Seq<char>, ops: Seq<OperationDef>, n: nat)
    requires
        n <= ops.len(),
    ensures
        model::grows(g, with_operations(g, repo, ops, n)),
        shows_operations(with_operations(g, repo, ops, n), repo, ops, n),
    decreases n,
{
    if n > 0 {
        lemma_operations(g, repo, ops, (n - 1) as nat);
        let h = with_operations(g, repo, ops, (n - 1) as nat);
        let node = operation_node(local_uid(repo, ops[n - 1]), ops[n - 1]);
        model::lemma_grows_node(g, h, node);
        lemma_operations_kept(h, h.with_node(node), repo, ops, (n - 1) as nat);
    }
}

proof fn lemma_produced(
    g: GraphView,
    repo: Seq<char>,
    d: Declares,
    src: Seq<char>,
    grade: (Provenance, u32),
    ops: Seq<OperationDef>,
    n: nat,
)
    requires
        n <= ops.len(),
        shows_operations(g, repo, ops, ops.len()),
        model::in_band(grade.0, grade.1),
    ensures
        model::grows(g, with_produced(g, repo, d, src, grade, ops, n)),
    decreases n,
{
    if n > 0 {
        lemma_produced(g, repo, d, src, grade, ops, (n - 1) as nat);
        let h = with_produced(g, repo, d, src, grade, ops, (n - 1) as nat);
        if implements(d, ops[n - 1]) {
            assert(g.has(local_uid(repo, ops[n - 1])));
            model::lemma_grows_edge(
                g,
                h,
                model::edge_of(src, local_uid(repo, ops[n - 1]), EdgeKind::Produces, grade.0, grade.1),
            );
        }
    }
}

proof fn lemma_producer(g: GraphView, repo: Seq<char>, f: FileEntry, d: Declares, ops: Seq<OperationDef>)
    requires
        shows_operations(g, repo, ops, ops.len()),
    ensures
        model::grows(g, with_producer(g, repo, f, d, ops)),
{
    let count = match_count(d, ops, ops.len());
    if count > 0 {
        let by = declared_by(d);
        let src = handler_or_enclosing(g, repo, f.path@, f.file.symbols@, by.0, by.1);
        lemma_produced(g, repo, d, src, producer_grade(d, count), ops, ops.len());
    }
}

proof fn lemma_routes(g: GraphView, repo: Seq<char>, f: FileEntry, ops: Seq<OperationDef>, n: nat)
    requires
        shows_operations(g, repo, ops, ops.len()),
    ensures
        model::grows(g, with_routes(g, repo, f, ops, n)),
    decreases n,
{
    if n > 0 {
        lemma_routes(g, repo, f, ops, (n - 1) as nat);
        let h = with_routes(g, repo, f, ops, (n - 1) as nat);
        lemma_operations_kept(g, h, repo, ops, ops.len());
        let d = Declares::Route(f.file.routes@[n - 1]);
        lemma_producer(h, repo, f, d, ops);
        model::lemma_grows_trans(g, h, with_producer(h, repo, f, d, ops));
    }
}

proof fn lemma_all_routes(g: GraphView, repo: Seq<char>, files: Seq<FileEntry>, ops: Seq<OperationDef>, n: nat)
    requires
        shows_operations(g, repo, ops, ops.len()),
    ensures
        model::grows(g, with_all_routes(g, repo, files, ops, n)),
    decreases n,
{
    if n > 0 {
        lemma_all_routes(g, repo, files, ops, (n - 1) as nat);
        let h = with_all_routes(g, repo, files, ops, (n - 1) as nat);
        lemma_operations_kept(g, h, repo, ops, ops.len());
        let f = files[n - 1];
        lemma_routes(h, repo, f, ops, f.file.routes@.len());
        model::lemma_grows_trans(g, h, with_routes(h, repo, f, ops, f.file.routes@.len()));
    }
}

proof fn lemma_resolvers(g: GraphView, repo: Seq<char>, f: FileEntry, ops: Seq<OperationDef>, n: nat)
    requires
        shows_operations(g, repo, ops, ops.len()),
    ensures
        model::grows(g, with_resolvers(g, repo, f, ops, n)),
    decreases n,
{
    if n > 0 {
        lemma_resolvers(g, repo, f, ops, (n - 1) as nat);
        let h = with_resolvers(g, repo, f, ops, (n - 1) as nat);
        lemma_operations_kept(g, h, repo, ops, ops.len());
        let d = Declares::Resolver(f.file.resolver_entries@[n - 1]);
        lemma_producer(h, repo, f, d, ops);
        model::lemma_grows_trans(g, h, with_producer(h, repo, f, d, ops));
    }
}

proof fn lemma_all_resolvers(g: GraphView, repo: Seq<char>, files: Seq<FileEntry>, ops: Seq<OperationDef>, n: nat)
    requires
        shows_operations(g, repo, ops, ops.len()),
    ensures
        model::grows(g, with_all_resolvers(g, repo, files, ops, n)),
    decreases n,
{
    if n > 0 {
        lemma_all_resolvers(g, repo, files, ops, (n - 1) as nat);
        let h = with_all_resolvers(g, repo, files, ops, (n - 1) as nat);
        lemma_operations_kept(g, h, repo, ops, ops.len());
        let f = files[n - 1];
        lemma_resolvers(h, repo, f, ops, f.file.resolver_entries@.len());
        model::lemma_grows_trans(g, h, with_resolvers(h, repo, f, ops, f.file.resolver_entries@.len()));
    }
}

/// Whether an edge of `g` links a consumer of `g` to an operation, as the pair says.
pub open spec fn links_pair(g: GraphView, e: EdgeView, pair: (Seq<char>, Seq<char>)) -> bool {
    e.kind == EdgeKind::Consumes && e.src == pair.0 && e.dst == pair.1 && g.has(e.src)
}

/// Whether the edges of `s` beyond those of `g` are consumer edges between nodes, one for each pair
/// that is recorded as linked beyond those of `base`, and none for a pair that was recorded before.
/// Everything of `g` stays.
pub open spec fn links_once(g: GraphView, base: Seq<(Seq<char>, Seq<char>)>, s: LinkState) -> bool {
    &&& model::extends(g, s.graph)
    &&& model::reaches(g, s.graph)
    &&& s.graph.nodes == g.nodes
    &&& base.len() <= s.linked.len()
    &&& forall|i: int| 0 <= i < base.len() ==> #[trigger] s.linked[i] == base[i]
    &&& s.graph.edges.len() + base.len() == g.edges.len() + s.linked.len()
    &&& forall|k: int|
        base.len() <= k < s.linked.len() ==> links_pair(
            s.graph,
            s.graph.edges[g.edges.len() + k - base.len()],
            #[trigger] s.linked[k],
        )
    &&& forall|i: int, k: int|
        0 <= i < k < s.linked.len() && base.len() <= k ==> (#[trigger] s.linked[i]) != (#[trigger] s.linked[k])
}

proof fn lemma_owners(
    g: GraphView,
    base: Seq<(Seq<char>, Seq<char>)>,
    s: LinkState,
    consumer: Seq<char>,
    link: ConsumerLink,
    owners: Seq<OwnerView>,
    fan_out: bool,
    n: nat,
)
    requires
        links_once(g, base, s),
        s.graph.has(consumer),
    ensures
        links_once(g, base, with_owners(s, consumer, link, owners, fan_out, n)),
        gradable(link) && model::keeps(g, s.graph) ==> model::keeps(
            g,
            with_owners(s, consumer, link, owners, fan_out, n).graph,
        ),
        with_owners(s, consumer, link, owners, fan_out, n).graph.has(consumer),
    decreases n,
{
    if n > 0 {
        lemma_owners(g, base, s, consumer, link, owners, fan_out, (n - 1) as nat);
        let t = with_owners(s, consumer, link, owners, fan_out, (n - 1) as nat);
        let o = owners[n - 1];
        if owns(o, link) && t.graph.has(o.uid) && !t.linked.contains((consumer, o.uid)) {
            let grade = consumer_grade(link, fan_out);
            let e = model::edge_of(consumer, o.uid, EdgeKind::Consumes, grade.0, grade.1);
            model::law_with_edge(t.graph, e);
            if gradable(link) && model::keeps(g, s.graph) {
                model::lemma_keeps_edge(g, t.graph, e);
            }
            let u = with_owners(s, consumer, link, owners, fan_out, n);
            assert(u.graph == t.graph.with_edge(e));
            assert forall|i: int| g.edges.len() <= i < u.graph.edges.len() implies u.graph.has(
                (#[trigger] u.graph.edges[i]).dst,
            ) by {
                if i < t.graph.edges.len() {
                    assert(t.graph.has(t.graph.edges[i].dst));
                }
            }
            assert forall|k: int| base.len() <= k < u.linked.len() implies links_pair(
                u.graph,
                u.graph.edges[g.edges.len() + k - base.len()],
                #[trigger] u.linked[k],
            ) by {
                if k < t.linked.len() {
                    assert(u.linked[k] == t.linked[k]);
                    assert(u.graph.edges[g.edges.len() + k - base.len()] == t.graph.edges[g.edges.len() + k - base.len()]);
                    assert(links_pair(t.graph, t.graph.edges[g.edges.len() + k - base.len()], t.linked[k]));
                    assert(t.graph.has(t.graph.edges[g.edges.len() + k - base.len()].src));
                }
            }
            assert forall|i: int, k: int| 0 <= i < k < u.linked.len() && base.len() <= k implies (#[trigger] u.linked[i]) != (
            #[trigger] u.linked[k]) by {
                assert(u.linked[i] == t.linked[i]);
                if k < t.linked.len() {
                    assert(u.linked[k] == t.linked[k]);
                }
            }
        }
    }
}

proof fn lemma_links(
    g: GraphView,
    base: Seq<(Seq<char>, Seq<char>)>,
    s: LinkState,
    consumer: Seq<char>,
    links: Seq<ConsumerLink>,
    owners: Seq<OwnerView>,
    n: nat,
)
    requires
        n <= links.len(),
        links_once(g, base, s),
        s.graph.has(consumer),
    ensures
        links_once(g, base, with_links(s, consumer, links, owners, n)),
        all_gradable(links) && model::keeps(g, s.graph) ==> model::keeps(
            g,
            with_links(s, consumer, links, owners, n).graph,
        ),
        with_links(s, consumer, links, owners, n).graph.has(consumer),
    decreases n,
{
    if n > 0 {
        lemma_links(g, base, s, consumer, links, owners, (n - 1) as nat);
        let t = with_links(s, consumer, links, owners, (n - 1) as nat);
        let link = links[n - 1];
        lemma_owners(
            g,
            base,
            t,
            consumer,
            link,
            owners,
            owner_count(owners, link, owners.len()) > 1,
            owners.len(),
        );
    }
}

/// Linking a consumer keeps the record of what is linked.
pub proof fn lemma_consumer(g: GraphView, base: Seq<(Seq<char>, Seq<char>)>, s: LinkState, consumer: Seq<char>, links: Seq<ConsumerLink>, owners: Seq<OwnerView>)
    requires
        links_once(g, base, s),
    ensures
        links_once(g, base, with_consumer(s, consumer, links, owners)),
        all_gradable(links) && model::keeps(g, s.graph) ==> model::keeps(
            g,
            with_consumer(s, consumer, links, owners).graph,
        ),
{
    if s.graph.has(consumer) {
        lemma_links(g, base, s, consumer, links, owners, links.len());
    }
}

proof fn lemma_signals(
    g: GraphView,
    base: Seq<(Seq<char>, Seq<char>)>,
    s: LinkState,
    repo: Seq<char>,
    path: Seq<char>,
    signals: Seq<CallSignal>,
    owners: Seq<OwnerView>,
    n: nat,
)
    requires
        n <= signals.len(),
        links_once(g, base, s),
    ensures
        links_once(g, base, with_signals(s, repo, path, signals, owners, n)),
        calls_gradable(signals) && model::keeps(g, s.graph) ==> model::keeps(
            g,
            with_signals(s, repo, path, signals, owners, n).graph,
        ),
    decreases n,
{
    if n > 0 {
        lemma_signals(g, base, s, repo, path, signals, owners, (n - 1) as nat);
        let sig = signals[n - 1];
        if calls_gradable(signals) {
            assert(all_gradable(signals[n - 1].links@));
        }
        lemma_consumer(
            g,
            base,
            with_signals(s, repo, path, signals, owners, (n - 1) as nat),
            code_enclosing(repo, path, sig.enclosing_fqn@),
            sig.links@,
            owners,
        );
    }
}

proof fn lemma_fields(
    g: GraphView,
    base: Seq<(Seq<char>, Seq<char>)>,
    s: LinkState,
    consumer: Seq<char>,
    fields: Seq<Vec<ConsumerLink>>,
    owners: Seq<OwnerView>,
    n: nat,
)
    requires
        n <= fields.len(),
        links_once(g, base, s),
    ensures
        links_once(g, base, with_fields(s, consumer, fields, owners, n)),
        (forall|i: int| 0 <= i < fields.len() ==> all_gradable((#[trigger] fields[i])@)) && model::keeps(g, s.graph)
            ==> model::keeps(g, with_fields(s, consumer, fields, owners, n).graph),
    decreases n,
{
    if n > 0 {
        lemma_fields(g, base, s, consumer, fields, owners, (n - 1) as nat);
        lemma_consumer(
            g,
            base,
            with_fields(s, consumer, fields, owners, (n - 1) as nat),
            consumer,
            fields[n - 1]@,
            owners,
        );
    }
}

proof fn lemma_docs(
    g: GraphView,
    base: Seq<(Seq<char>, Seq<char>)>,
    s: LinkState,
    repo: Seq<char>,
    path: Seq<char>,
    docs: Seq<DocSignal>,
    owners: Seq<OwnerView>,
    n: nat,
)
    requires
        n <= docs.len(),
        links_once(g, base, s),
    ensures
        links_once(g, base, with_docs(s, repo, path, docs, owners, n)),
        (forall|i: int| 0 <= i < docs.len() ==> doc_gradable(#[trigger] docs[i])) && model::keeps(g, s.graph)
            ==> model::keeps(g, with_docs(s, repo, path, docs, owners, n).graph),
    decreases n,
{
    if n > 0 {
        lemma_docs(g, base, s, repo, path, docs, owners, (n - 1) as nat);
        let t = with_docs(s, repo, path, docs, owners, (n - 1) as nat);
        let doc = docs[n - 1];
        match doc.reading {
            DocReading::Parsed { fields, .. } => {
                lemma_fields(
                    g,
                    base,
                    t,
                    code_enclosing(repo, path, doc.enclosing_fqn@),
                    fields@,
                    owners,
                    fields@.len(),
                );
            },
            DocReading::Unparsed => {},
        }
    }
}

/// Linking the consumers of a list of files keeps the record of what is linked.
pub proof fn lemma_consumers(
    g: GraphView,
    base: Seq<(Seq<char>, Seq<char>)>,
    s: LinkState,
    repo: Seq<char>,
    files: Seq<FileSignals>,
    owners: Seq<OwnerView>,
    n: nat,
)
    requires
        n <= files.len(),
        links_once(g, base, s),
    ensures
        links_once(g, base, with_consumers(s, repo, files, owners, n)),
        signals_gradable(files) && model::keeps(g, s.graph) ==> model::keeps(
            g,
            with_consumers(s, repo, files, owners, n).graph,
        ),
    decreases n,
{
    if n > 0 {
        lemma_consumers(g, base, s, repo, files, owners, (n - 1) as nat);
        let t = with_consumers(s, repo, files, owners, (n - 1) as nat);
        let f = files[n - 1];
        if signals_gradable(files) {
            assert(file_gradable(files[n - 1]));
        }
        lemma_signals(g, base, t, repo, f.path@, f.http@, owners, f.http@.len());
        let a = with_signals(t, repo, f.path@, f.http@, owners, f.http@.len());
        lemma_signals(g, base, a, repo, f.path@, f.calls@, owners, f.calls@.len());
        let c = with_signals(a, repo, f.path@, f.calls@, owners, f.calls@.len());
        lemma_docs(g, base, c, repo, f.path@, f.docs@, owners, f.docs@.len());
    }
}

proof fn lemma_slots(a: Seq<char>, f: ContractFormat, b: Seq<char>, g: ContractFormat)
    requires
        a + "/"@ + format_name(f) == b + "/"@ + format_name(g),
    ensures
        a == b,
        f == g,
{
    reveal_strlit("/");
    reveal_strlit("openapi");
    reveal_strlit("graphql");
    reveal_strlit("grpc");
    let s = a + "/"@ + format_name(f);
    let t = b + "/"@ + format_name(g);
    assert(s[s.len() - 1] == format_name(f)[format_name(f).len() - 1]);
    assert(t[t.len() - 1] == format_name(g)[format_name(g).len() - 1]);
    assert(f == g);
    assert forall|i: int| 0 <= i < a.len() implies a[i] == b[i] by {
        assert(s[i] == a[i] && t[i] == b[i]);
    }
    assert(a =~= b);
}

proof fn lemma_format_has_no_bar(api_id: Seq<char>, format: ContractFormat)
    requires
        !api_id.contains('|'),
    ensures
        !(api_id + "/"@ + format_name(format)).contains('|'),
{
    reveal_strlit("/");
    reveal_strlit("openapi");
    reveal_strlit("graphql");
    reveal_strlit("grpc");
    let s = api_id + "/"@ + format_name(format);
    assert forall|i: int| 0 <= i < s.len() implies s[i] != '|' by {
        if i < api_id.len() {
            assert(s[i] == api_id[i]);
            assert(api_id.contains(api_id[i]));
        } else {
            assert(s[i] == ("/"@ + format_name(format))[i - api_id.len()]);
        }
    }
}

/// Two operations of an estate have the same identifier exactly where they agree in API, format and
/// key, whatever the key. No API id may hold the bar that parts an identifier: a slug never does.
pub proof fn law_canonical_uid_tells_apart(
    estate: Seq<char>,
    a: Seq<char>,
    f: ContractFormat,
    k: Seq<char>,
    b: Seq<char>,
    g: ContractFormat,
    l: Seq<char>,
)
    requires
        !a.contains('|'),
        !b.contains('|'),
    ensures
        canonical_uid(estate, a, f, k) == canonical_uid(estate, b, g, l) <==> a == b && f == g && k == l,
{
    if canonical_uid(estate, a, f, k) == canonical_uid(estate, b, g, l) {
        reveal_strlit("");
        let head = "contract"@.push('|') + estate.push('|');
        let s = a + "/"@ + format_name(f);
        let t = b + "/"@ + format_name(g);
        let x = s.push('|') + k.push('|');
        let y = t.push('|') + l.push('|');
        assert(canonical_uid(estate, a, f, k) =~= head + x);
        assert(canonical_uid(estate, b, g, l) =~= head + y);
        assert(x =~= (head + x).skip(head.len() as int));
        assert(y =~= (head + y).skip(head.len() as int));
        lemma_format_has_no_bar(a, f);
        lemma_format_has_no_bar(b, g);
        text::lemma_cut(s, k.push('|'), t, l.push('|'), '|');
        lemma_slots(a, f, b, g);
        assert(k =~= k.push('|').drop_last());
        assert(l =~= l.push('|').drop_last());
    }
}

/// A consumer is linked to an operation once at most, and only where both are nodes: beyond what the
/// producers give, the contract plane has one edge for each pair that it links.
pub proof fn law_consumers_linked_once(
    g: GraphView,
    repo: Seq<char>,
    files: Seq<FileEntry>,
    ops: Seq<OperationDef>,
    signals: Seq<FileSignals>,
)
    ensures
        ({
            let produced = with_all_resolvers(producer_plane(g, repo, files, ops), repo, files, ops, files.len());
            let linked = with_consumers(
                LinkState { graph: produced, linked: Seq::empty() },
                repo,
                signals,
                local_owners(repo, ops, ops.len()),
                signals.len(),
            );
            &&& contract_plane(g, repo, files, ops, signals) == linked.graph
            &&& links_once(produced, Seq::empty(), linked)
        }),
{
    let produced = with_all_resolvers(producer_plane(g, repo, files, ops), repo, files, ops, files.len());
    let s = LinkState { graph: produced, linked: Seq::empty() };
    lemma_consumers(produced, Seq::empty(), s, repo, signals, local_owners(repo, ops, ops.len()), signals.len());
}

/// The contract plane only adds, every edge that it adds lies in the band of its provenance, and
/// every edge leads to an operation that is there.
pub proof fn law_contract_plane_sound(
    g: GraphView,
    repo: Seq<char>,
    files: Seq<FileEntry>,
    ops: Seq<OperationDef>,
    signals: Seq<FileSignals>,
)
    requires
        signals_gradable(signals),
    ensures
        model::grows(g, contract_plane(g, repo, files, ops, signals)),
        shows_operations(contract_plane(g, repo, files, ops, signals), repo, ops, ops.len()),
{
    lemma_operations(g, repo, ops, ops.len());
    let a = with_operations(g, repo, ops, ops.len());
    lemma_all_routes(a, repo, files, ops, files.len());
    let b = producer_plane(g, repo, files, ops);
    model::lemma_grows_trans(g, a, b);
    lemma_operations_kept(a, b, repo, ops, ops.len());
    lemma_all_resolvers(b, repo, files, ops, files.len());
    let c = with_all_resolvers(b, repo, files, ops, files.len());
    model::lemma_grows_trans(g, b, c);
    let owners = local_owners(repo, ops, ops.len());
    let s = LinkState { graph: c, linked: Seq::empty() };
    lemma_consumers(c, Seq::empty(), s, repo, signals, owners, signals.len());
    let d = contract_plane(g, repo, files, ops, signals);
    model::lemma_grows_trans(g, c, d);
    lemma_operations_kept(b, d, repo, ops, ops.len());
}

/// Without operations the contract plane leaves the graph as it is, whatever the code declares and
/// calls.
pub proof fn law_contract_plane_additive(g: GraphView, repo: Seq<char>, files: Seq<FileEntry>, signals: Seq<FileSignals>)
    ensures
        contract_plane(g, repo, files, Seq::empty(), signals) == g,
{
    let none = Seq::<OperationDef>::empty();
    lemma_no_routes(g, repo, files, files.len());
    lemma_no_resolvers(g, repo, files, files.len());
    let s = LinkState { graph: g, linked: Seq::empty() };
    assert(local_owners(repo, none, none.len()) =~= Seq::<OwnerView>::empty());
    lemma_no_consumers(s, repo, signals, signals.len());
}

proof fn lemma_no_routes(g: GraphView, repo: Seq<char>, files: Seq<FileEntry>, n: nat)
    ensures
        with_all_routes(g, repo, files, Seq::empty(), n) == g,
    decreases n,
{
    if n > 0 {
        lemma_no_routes(g, repo, files, (n - 1) as nat);
        lemma_no_file_routes(g, repo, files[n - 1], files[n - 1].file.routes@.len());
    }
}

proof fn lemma_no_file_routes(g: GraphView, repo: Seq<char>, f: FileEntry, n: nat)
    ensures
        with_routes(g, repo, f, Seq::empty(), n) == g,
    decreases n,
{
    if n > 0 {
        lemma_no_file_routes(g, repo, f, (n - 1) as nat);
    }
}

proof fn lemma_no_resolvers(g: GraphView, repo: Seq<char>, files: Seq<FileEntry>, n: nat)
    ensures
        with_all_resolvers(g, repo, files, Seq::empty(), n) == g,
    decreases n,
{
    if n > 0 {
        lemma_no_resolvers(g, repo, files, (n - 1) as nat);
        lemma_no_file_resolvers(g, repo, files[n - 1], files[n - 1].file.resolver_entries@.len());
    }
}

proof fn lemma_no_file_resolvers(g: GraphView, repo: Seq<char>, f: FileEntry, n: nat)
    ensures
        with_resolvers(g, repo, f, Seq::empty(), n) == g,
    decreases n,
{
    if n > 0 {
        lemma_no_file_resolvers(g, repo, f, (n - 1) as nat);
    }
}

proof fn lemma_no_links(s: LinkState, consumer: Seq<char>, links: Seq<ConsumerLink>, n: nat)
    ensures
        with_links(s, consumer, links, Seq::empty(), n) == s,
    decreases n,
{
    if n > 0 {
        lemma_no_links(s, consumer, links, (n - 1) as nat);
    }
}

proof fn lemma_no_signals(s: LinkState, repo: Seq<char>, path: Seq<char>, signals: Seq<CallSignal>, n: nat)
    ensures
        with_signals(s, repo, path, signals, Seq::empty(), n) == s,
    decreases n,
{
    if n > 0 {
        lemma_no_signals(s, repo, path, signals, (n - 1) as nat);
        let sig = signals[n - 1];
        lemma_no_links(s, code_enclosing(repo, path, sig.enclosing_fqn@), sig.links@, sig.links@.len());
    }
}

proof fn lemma_no_fields(s: LinkState, consumer: Seq<char>, fields: Seq<Vec<ConsumerLink>>, n: nat)
    ensures
        with_fields(s, consumer, fields, Seq::empty(), n) == s,
    decreases n,
{
    if n > 0 {
        lemma_no_fields(s, consumer, fields, (n - 1) as nat);
        lemma_no_links(s, consumer, fields[n - 1]@, fields[n - 1]@.len());
    }
}

proof fn lemma_no_docs(s: LinkState, repo: Seq<char>, path: Seq<char>, docs: Seq<DocSignal>, n: nat)
    ensures
        with_docs(s, repo, path, docs, Seq::empty(), n) == s,
    decreases n,
{
    if n > 0 {
        lemma_no_docs(s, repo, path, docs, (n - 1) as nat);
        let doc = docs[n - 1];
        match doc.reading {
            DocReading::Parsed { fields, .. } => {
                lemma_no_fields(s, code_enclosing(repo, path, doc.enclosing_fqn@), fields@, fields@.len());
            },
            DocReading::Unparsed => {},
        }
    }
}

proof fn lemma_no_consumers(s: LinkState, repo: Seq<char>, files: Seq<FileSignals>, n: nat)
    ensures
        with_consumers(s, repo, files, Seq::empty(), n) == s,
    decreases n,
{
    if n > 0 {
        lemma_no_consumers(s, repo, files, (n - 1) as nat);
        let f = files[n - 1];
        lemma_no_signals(s, repo, f.path@, f.http@, f.http@.len());
        lemma_no_signals(s, repo, f.path@, f.calls@, f.calls@.len());
        lemma_no_docs(s, repo, f.path@, f.docs@, f.docs@.len());
    }
}

} // verus!
