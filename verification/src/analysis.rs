//! What the language analyzers report of a source file, as plain values.
use vstd::prelude::*;

use crate::model::{NodeKind, Span};

verus! {

/// A symbol that a file defines.
#[derive(Debug, PartialEq, Eq)]
pub struct RawSymbol {
    pub kind: NodeKind,
    pub name: String,
    pub fqn: String,
    pub container_fqn: Option<String>,
    pub span: Span,
}

/// What an import specifier resolved to.
#[derive(Debug, PartialEq, Eq)]
pub enum ImportResolution {
    /// A module of the repository, by path.
    Resolved(String),
    /// An external package, by name.
    External(String),
    /// Nothing known.
    Unresolved,
}

/// An import statement.
#[derive(Debug, PartialEq, Eq)]
pub struct ImportRef {
    pub specifier: String,
    pub imported_names: Vec<String>,
    pub resolution: ImportResolution,
}

/// A call site.
#[derive(Debug, PartialEq, Eq)]
pub struct CallRef {
    pub callee_name: String,
    pub receiver: Option<String>,
    /// Whether the receiver is a path and not an expression.
    pub receiver_is_path: bool,
    /// The symbol that makes the call; empty at the top level of the module.
    pub enclosing_fqn: String,
    pub callee_span: Span,
}

/// A route declaration. `norm_path` is its path with the parameters made uniform.
#[derive(Debug, PartialEq, Eq)]
pub struct RouteDecl {
    pub method: String,
    pub path: String,
    pub norm_path: String,
    pub handler_name: Option<String>,
    pub enclosing_fqn: String,
}

/// An entry of a GraphQL resolver map.
#[derive(Debug, PartialEq, Eq)]
pub struct ResolverEntry {
    pub op_type: String,
    pub field: String,
    pub handler_name: Option<String>,
    pub enclosing_fqn: String,
}

/// Whether SQL reads a table or writes it.
#[derive(Clone, Copy, Debug, PartialEq, Eq, Structural)]
pub enum SqlAccess {
    Read,
    Write,
}

/// A table that SQL names.
#[derive(Debug, PartialEq, Eq)]
pub struct TableRef {
    pub table: String,
    pub access: SqlAccess,
}

/// A string that may be SQL, with the tables that it names.
#[derive(Debug, PartialEq, Eq)]
pub struct SqlCandidate {
    pub text: String,
    pub refs: Vec<TableRef>,
    pub enclosing_fqn: String,
}

/// A model class that names its table.
#[derive(Debug, PartialEq, Eq)]
pub struct OrmModelHint {
    pub model_fqn: String,
    pub table_name: String,
}

/// A GraphQL document found in a file.
#[derive(Debug, PartialEq, Eq)]
pub struct GqlDocument {
    pub text: String,
    pub interpolation_free: bool,
    pub tagged: bool,
    pub enclosing_fqn: String,
}

/// An outgoing HTTP call.
#[derive(Debug, PartialEq, Eq)]
pub struct HttpCall {
    pub method: Option<String>,
    pub url: String,
    pub enclosing_fqn: String,
}

/// All that the analyzer reports of one file.
#[derive(Debug, PartialEq, Eq)]
pub struct AnalyzedFile {
    pub symbols: Vec<RawSymbol>,
    pub imports: Vec<ImportRef>,
    pub calls: Vec<CallRef>,
    pub routes: Vec<RouteDecl>,
    pub http_calls: Vec<HttpCall>,
    pub gql_documents: Vec<GqlDocument>,
    pub resolver_entries: Vec<ResolverEntry>,
    pub sql_candidates: Vec<SqlCandidate>,
    pub orm_models: Vec<OrmModelHint>,
}

/// A file of the repository with what its analysis reports. Lists of these stand in ascending
/// order of the paths.
#[derive(Debug, PartialEq, Eq)]
pub struct FileEntry {
    pub path: String,
    pub file: AnalyzedFile,
}

/// A source file: its repository-relative path and its text.
#[derive(Debug, PartialEq, Eq)]
pub struct SourceText {
    pub path: String,
    pub text: String,
}

impl Default for AnalyzedFile {
    fn default() -> (r: AnalyzedFile)
        ensures
            r.symbols@.len() == 0,
            r.imports@.len() == 0,
            r.calls@.len() == 0,
            r.routes@.len() == 0,
            r.http_calls@.len() == 0,
            r.gql_documents@.len() == 0,
            r.resolver_entries@.len() == 0,
            r.sql_candidates@.len() == 0,
            r.orm_models@.len() == 0,
    {
        AnalyzedFile {
            symbols: Vec::new(),
            imports: Vec::new(),
            calls: Vec::new(),
            routes: Vec::new(),
            http_calls: Vec::new(),
            gql_documents: Vec::new(),
            resolver_entries: Vec::new(),
            sql_candidates: Vec::new(),
            orm_models: Vec::new(),
        }
    }
}

} // verus!
