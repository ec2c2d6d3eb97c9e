//! The code plane: modules, symbols, imports and calls of a set of analyzed files.
//!
//! The graph is a function of the analyzed files alone. A call site is resolved precisely where a
//! SCIP index covers it, to one target; elsewhere every candidate that the names allow gets an
//! edge, at a confidence that no inference can leave.
use vstd::prelude::*;

use crate::analysis::{AnalyzedFile, CallRef, FileEntry, ImportRef, ImportResolution, RawSymbol, SourceText};
use crate::model;
use crate::model::{Edge, EdgeKind, Graph, GraphView, Node, NodeKind, NodeView, Provenance, Span, Uid};
use crate::order;
use crate::scip_merge;
use crate::scip_merge::{IndicesView, MappedTarget, ScipEntry, ScipTable, SiteResolver, TargetView};
use crate::text;

verus! {

/// The confidence of an edge that a SCIP index resolved.
pub const RESOLVED_CONFIDENCE: u32 = 970_000_000;

/// A bare call with one candidate.
pub const CONF_BARE_SINGLE: u32 = 800_000_000;

/// A bare call with several candidates of the same name.
pub const CONF_BARE_MULTI: u32 = 350_000_000;

/// A call on `this`, resolved within the enclosing class.
pub const CONF_THIS_METHOD: u32 = 800_000_000;

/// A call on a receiver of unknown type: every method of that name.
pub const CONF_UNKNOWN_RECEIVER: u32 = 390_000_000;

// ----------------------------------------------------------------------------------------------
// Identifiers
// ----------------------------------------------------------------------------------------------

/// The identifier of the repository node.
pub open spec fn repo_uid(repo: Seq<char>) -> Seq<char> {
    model::uid_text("ts"@, repo, ""@, repo, ""@)
}

/// The identifier of the module node of a file.
pub open spec fn module_uid(repo: Seq<char>, path: Seq<char>) -> Seq<char> {
    model::uid_text("ts"@, repo, path, "<module>"@, ""@)
}

/// The identifier of a symbol of a file.
pub open spec fn symbol_uid(repo: Seq<char>, path: Seq<char>, fqn: Seq<char>) -> Seq<char> {
    model::uid_text("ts"@, repo, path, fqn, ""@)
}

/// The identifier of an external package.
pub open spec fn package_uid(pkg: Seq<char>) -> Seq<char> {
    model::uid_text("ts"@, "<external>"@, ""@, pkg, ""@)
}

/// The node that a site is attributed to: the enclosing symbol, or the module at the top level.
pub open spec fn enclosing_uid(repo: Seq<char>, path: Seq<char>, enclosing: Seq<char>) -> Seq<char> {
    if enclosing.len() == 0 {
        module_uid(repo, path)
    } else {
        symbol_uid(repo, path, enclosing)
    }
}

/// The identifier of the repository node.
pub fn uid_repo(repo_name: &str) -> (r: Uid)
    ensures
        r@ == repo_uid(repo_name@),
{
    Uid::new("ts", repo_name, "", repo_name, "")
}

/// The identifier of the module node of a file.
pub fn uid_module(repo_name: &str, path: &str) -> (r: Uid)
    ensures
        r@ == module_uid(repo_name@, path@),
{
    Uid::new("ts", repo_name, path, "<module>", "")
}

/// The identifier of a symbol of a file.
pub fn uid_symbol(repo_name: &str, path: &str, fqn: &str) -> (r: Uid)
    ensures
        r@ == symbol_uid(repo_name@, path@, fqn@),
{
    Uid::new("ts", repo_name, path, fqn, "")
}

/// The identifier of an external package.
pub fn uid_package(pkg: &str) -> (r: Uid)
    ensures
        r@ == package_uid(pkg@),
{
    Uid::new("ts", "<external>", "", pkg, "")
}

/// The node that a site is attributed to.
pub fn uid_enclosing(repo_name: &str, path: &str, enclosing_fqn: &str) -> (r: Uid)
    ensures
        r@ == enclosing_uid(repo_name@, path@, enclosing_fqn@),
{
    if enclosing_fqn.unicode_len() == 0 {
        uid_module(repo_name, path)
    } else {
        uid_symbol(repo_name, path, enclosing_fqn)
    }
}

// ----------------------------------------------------------------------------------------------
// Structure: modules and symbols
// ----------------------------------------------------------------------------------------------

/// The module node of a file.
pub open spec fn module_node(repo: Seq<char>, path: Seq<char>) -> NodeView {
    model::fact_node(
        module_uid(repo, path),
        NodeKind::Module,
        text::after_last(path, '/'),
        "<module>"@,
        path,
        model::no_span(),
    )
}

/// The node of a symbol of a file.
pub open spec fn symbol_node(repo: Seq<char>, path: Seq<char>, sym: RawSymbol) -> NodeView {
    model::fact_node(symbol_uid(repo, path, sym.fqn@), sym.kind, sym.name@, sym.fqn@, path, sym.span)
}

/// The graph with `member` placed in `container`: one edge each way.
pub open spec fn with_pair(g: GraphView, member: Seq<char>, container: Seq<char>) -> GraphView {
    g.with_edge(model::fact_edge(member, container, EdgeKind::MemberOf)).with_edge(
        model::fact_edge(container, member, EdgeKind::Defines),
    )
}

/// What a symbol is placed in: its class where the graph has it, else the module.
pub open spec fn container_of(g: GraphView, repo: Seq<char>, path: Seq<char>, sym: RawSymbol) -> Seq<char> {
    match sym.container_fqn {
        Some(class) => if g.has(symbol_uid(repo, path, class@)) {
            symbol_uid(repo, path, class@)
        } else {
            module_uid(repo, path)
        },
        None => module_uid(repo, path),
    }
}

/// The graph with the nodes of the first `n` symbols of a file.
pub open spec fn with_symbol_nodes(g: GraphView, repo: Seq<char>, path: Seq<char>, syms: Seq<RawSymbol>, n: nat) -> GraphView
    decreases n,
{
    if n == 0 {
        g
    } else {
        with_symbol_nodes(g, repo, path, syms, (n - 1) as nat).with_node(symbol_node(repo, path, syms[n - 1]))
    }
}

/// The graph with the first `n` symbols of a file placed.
pub open spec fn with_symbol_edges(g: GraphView, repo: Seq<char>, path: Seq<char>, syms: Seq<RawSymbol>, n: nat) -> GraphView
    decreases n,
{
    if n == 0 {
        g
    } else {
        let h = with_symbol_edges(g, repo, path, syms, (n - 1) as nat);
        with_pair(h, symbol_uid(repo, path, syms[n - 1].fqn@), container_of(h, repo, path, syms[n - 1]))
    }
}

/// The graph with the module and the symbols of a file.
pub open spec fn with_structure(g: GraphView, repo: Seq<char>, f: FileEntry) -> GraphView {
    let placed = with_pair(g.with_node(module_node(repo, f.path@)), module_uid(repo, f.path@), repo_uid(repo));
    let syms = f.file.symbols@;
    with_symbol_edges(with_symbol_nodes(placed, repo, f.path@, syms, syms.len()), repo, f.path@, syms, syms.len())
}

/// The graph with the modules and symbols of the first `n` files.
pub open spec fn with_structures(g: GraphView, repo: Seq<char>, files: Seq<FileEntry>, n: nat) -> GraphView
    decreases n,
{
    if n == 0 {
        g
    } else {
        with_structure(with_structures(g, repo, files, (n - 1) as nat), repo, files[n - 1])
    }
}

fn add_structural_pair(g: &mut Graph, member: &Uid, container: &Uid)
    ensures
        final(g)@ == with_pair(old(g)@, member@, container@),
{
    g.add_edge(model::extracted_edge(member, container, EdgeKind::MemberOf));
    g.add_edge(model::extracted_edge(container, member, EdgeKind::Defines));
}

fn add_structure(g: &mut Graph, repo_name: &str, entry: &FileEntry)
    ensures
        final(g)@ == with_structure(old(g)@, repo_name@, *entry),
{
    let path = entry.path.as_str();
    let module = uid_module(repo_name, path);
    let base = text::after_last_of(path, '/');
    g.add_node(
        model::extracted_node(module.clone(), NodeKind::Module, base.as_str(), "<module>", path, Span::default()),
    );
    let repo = uid_repo(repo_name);
    add_structural_pair(g, &module, &repo);
    let ghost placed = g@;
    let syms = &entry.file.symbols;
    let mut i: usize = 0;
    while i < syms.len()
        invariant
            i <= syms@.len(),
            path@ == entry.path@,
            g@ == with_symbol_nodes(placed, repo_name@, path@, syms@, i as nat),
        decreases syms@.len() - i,
    {
        let sym = &syms[i];
        let uid = uid_symbol(repo_name, path, sym.fqn.as_str());
        g.add_node(
            model::extracted_node(uid, sym.kind, sym.name.as_str(), sym.fqn.as_str(), path, sym.span),
        );
        i = i + 1;
    }
    let ghost noded = g@;
    let mut j: usize = 0;
    while j < syms.len()
        invariant
            j <= syms@.len(),
            path@ == entry.path@,
            module@ == module_uid(repo_name@, path@),
            g@ == with_symbol_edges(noded, repo_name@, path@, syms@, j as nat),
        decreases syms@.len() - j,
    {
        let sym = &syms[j];
        let uid = uid_symbol(repo_name, path, sym.fqn.as_str());
        let container = match &sym.container_fqn {
            Some(class_fqn) => {
                let class_uid = uid_symbol(repo_name, path, class_fqn.as_str());
                if g.has_node(&class_uid) {
                    class_uid
                } else {
                    module.clone()
                }
            },
            None => module.clone(),
        };
        add_structural_pair(g, &uid, &container);
        j = j + 1;
    }
}

// ----------------------------------------------------------------------------------------------
// Imports
// ----------------------------------------------------------------------------------------------

/// The graph with the edge of an import: to a module of the repository, to a package node, or none.
pub open spec fn with_import(g: GraphView, repo: Seq<char>, module: Seq<char>, import: ImportRef) -> GraphView {
    match import.resolution {
        ImportResolution::Resolved(target) => g.with_edge(
            model::fact_edge(module, module_uid(repo, target@), EdgeKind::Imports),
        ),
        ImportResolution::External(pkg) => g.with_node(
            model::fact_node(package_uid(pkg@), NodeKind::Package, pkg@, pkg@, ""@, model::no_span()),
        ).with_edge(model::fact_edge(module, package_uid(pkg@), EdgeKind::Imports)),
        ImportResolution::Unresolved => g,
    }
}

/// The graph with the edges of the first `n` imports of a file.
pub open spec fn with_imports(g: GraphView, repo: Seq<char>, path: Seq<char>, imports: Seq<ImportRef>, n: nat) -> GraphView
    decreases n,
{
    if n == 0 {
        g
    } else {
        with_import(
            with_imports(g, repo, path, imports, (n - 1) as nat),
            repo,
            module_uid(repo, path),
            imports[n - 1],
        )
    }
}

/// The graph with the imports of the first `n` files.
pub open spec fn with_all_imports(g: GraphView, repo: Seq<char>, files: Seq<FileEntry>, n: nat) -> GraphView
    decreases n,
{
    if n == 0 {
        g
    } else {
        let f = files[n - 1];
        with_imports(
            with_all_imports(g, repo, files, (n - 1) as nat),
            repo,
            f.path@,
            f.file.imports@,
            f.file.imports@.len(),
        )
    }
}

/// The module that an imported name comes from: by the last of the first `n` imports that names it
/// and resolved to a module of the repository.
pub open spec fn import_target(imports: Seq<ImportRef>, n: nat, name: Seq<char>) -> Option<Seq<char>>
    decreases n,
{
    if n == 0 {
        None
    } else {
        let import = imports[n - 1];
        match import.resolution {
            ImportResolution::Resolved(target) => if text::holds(import.imported_names@, name) {
                Some(target@)
            } else {
                import_target(imports, (n - 1) as nat, name)
            },
            _ => import_target(imports, (n - 1) as nat, name),
        }
    }
}

fn resolve_import(g: &mut Graph, repo_name: &str, module: &Uid, import: &ImportRef)
    ensures
        final(g)@ == with_import(old(g)@, repo_name@, module@, *import),
{
    match &import.resolution {
        ImportResolution::Resolved(target) => {
            let target_uid = uid_module(repo_name, target.as_str());
            g.add_edge(model::extracted_edge(module, &target_uid, EdgeKind::Imports));
        },
        ImportResolution::External(pkg) => {
            let pkg_uid = uid_package(pkg.as_str());
            g.add_node(
                model::extracted_node(
                    pkg_uid.clone(),
                    NodeKind::Package,
                    pkg.as_str(),
                    pkg.as_str(),
                    "",
                    Span::default(),
                ),
            );
            g.add_edge(model::extracted_edge(module, &pkg_uid, EdgeKind::Imports));
        },
        ImportResolution::Unresolved => {},
    }
}

fn add_imports(g: &mut Graph, repo_name: &str, entry: &FileEntry)
    ensures
        final(g)@ == with_imports(
            old(g)@,
            repo_name@,
            entry.path@,
            entry.file.imports@,
            entry.file.imports@.len(),
        ),
{
    let module = uid_module(repo_name, entry.path.as_str());
    let ghost before = g@;
    let mut i: usize = 0;
    while i < entry.file.imports.len()
        invariant
            i <= entry.file.imports@.len(),
            module@ == module_uid(repo_name@, entry.path@),
            g@ == with_imports(before, repo_name@, entry.path@, entry.file.imports@, i as nat),
        decreases entry.file.imports@.len() - i,
    {
        resolve_import(g, repo_name, &module, &entry.file.imports[i]);
        i = i + 1;
    }
}

/// The module that an imported name of a file comes from, if it comes from one of the repository.
pub fn imported_target(file: &AnalyzedFile, name: &str) -> (r: Option<String>)
    ensures
        text::opt_view(r) == import_target(file.imports@, file.imports@.len(), name@),
{
    let mut n: usize = file.imports.len();
    while n > 0
        invariant
            n <= file.imports@.len(),
            import_target(file.imports@, file.imports@.len(), name@) == import_target(
                file.imports@,
                n as nat,
                name@,
            ),
        decreases n,
    {
        let import = &file.imports[n - 1];
        match &import.resolution {
            ImportResolution::Resolved(target) => {
                if text::contains_text(&import.imported_names, name) {
                    return Some(target.clone());
                }
            },
            _ => {},
        }
        n = n - 1;
    }
    None
}

// ----------------------------------------------------------------------------------------------
// The call index
// ----------------------------------------------------------------------------------------------

/// Whether a symbol can be called.
pub open spec fn callable(kind: NodeKind) -> bool {
    kind == NodeKind::Function || kind == NodeKind::Method
}

/// A symbol that can be called.
#[derive(Debug, PartialEq, Eq)]
pub struct Callable {
    pub module: String,
    pub name: String,
    pub method: bool,
    pub uid: Uid,
}

/// The value of a [`Callable`].
#[verifier::ext_equal]
pub struct CallableView {
    pub module: Seq<char>,
    pub name: Seq<char>,
    pub method: bool,
    pub uid: Seq<char>,
}

impl View for Callable {
    type V = CallableView;

    open spec fn view(&self) -> CallableView {
        CallableView { module: self.module@, name: self.name@, method: self.method, uid: self.uid@ }
    }
}

/// Every symbol of the repository that can be called, by file and in source order.
#[derive(Debug, PartialEq, Eq)]
pub struct CallIndex {
    pub entries: Vec<Callable>,
}

impl View for CallIndex {
    type V = Seq<CallableView>;

    open spec fn view(&self) -> Seq<CallableView> {
        Seq::new(self.entries@.len(), |i: int| self.entries@[i]@)
    }
}

/// The callables of the first `n` symbols of a file, after `base`.
pub open spec fn callables_of(base: Seq<CallableView>, repo: Seq<char>, path: Seq<char>, syms: Seq<RawSymbol>, n: nat) -> Seq<
    CallableView,
>
    decreases n,
{
    if n == 0 {
        base
    } else {
        let rest = callables_of(base, repo, path, syms, (n - 1) as nat);
        let sym = syms[n - 1];
        if callable(sym.kind) {
            rest.push(
                CallableView {
                    module: path,
                    name: sym.name@,
                    method: sym.kind == NodeKind::Method,
                    uid: symbol_uid(repo, path, sym.fqn@),
                },
            )
        } else {
            rest
        }
    }
}

/// The callables of the first `n` files.
pub open spec fn call_index(repo: Seq<char>, files: Seq<FileEntry>, n: nat) -> Seq<CallableView>
    decreases n,
{
    if n == 0 {
        Seq::empty()
    } else {
        let f = files[n - 1];
        callables_of(
            call_index(repo, files, (n - 1) as nat),
            repo,
            f.path@,
            f.file.symbols@,
            f.file.symbols@.len(),
        )
    }
}

impl CallIndex {
    /// The index of a set of files.
    pub fn build(repo_name: &str, analyzed: &Vec<FileEntry>) -> (r: CallIndex)
        ensures
            r@ == call_index(repo_name@, analyzed@, analyzed@.len()),
    {
        let mut ix = CallIndex { entries: Vec::new() };
        assert(ix@ =~= call_index(repo_name@, analyzed@, 0));
        let mut i: usize = 0;
        while i < analyzed.len()
            invariant
                i <= analyzed@.len(),
                ix@ == call_index(repo_name@, analyzed@, i as nat),
            decreases analyzed@.len() - i,
        {
            let entry = &analyzed[i];
            let ghost base = ix@;
            let mut j: usize = 0;
            while j < entry.file.symbols.len()
                invariant
                    j <= entry.file.symbols@.len(),
                    ix@ == callables_of(base, repo_name@, entry.path@, entry.file.symbols@, j as nat),
                decreases entry.file.symbols@.len() - j,
            {
                let sym = &entry.file.symbols[j];
                if sym.kind == NodeKind::Function || sym.kind == NodeKind::Method {
                    let ghost before = ix@;
                    let c = Callable {
                        module: entry.path.clone(),
                        name: sym.name.clone(),
                        method: sym.kind == NodeKind::Method,
                        uid: uid_symbol(repo_name, entry.path.as_str(), sym.fqn.as_str()),
                    };
                    let ghost cv = c@;
                    ix.entries.push(c);
                    assert(ix@ =~= before.push(cv));
                }
                j = j + 1;
            }
            i = i + 1;
        }
        ix
    }
}

// ----------------------------------------------------------------------------------------------
// Call sites
// ----------------------------------------------------------------------------------------------

/// How a call site is resolved by names.
#[derive(Clone, Copy, Debug, PartialEq, Eq, Structural)]
pub enum HeuristicClass {
    /// A bare call with at most one candidate.
    BareSingle,
    /// A bare call with several candidates.
    BareMulti,
    /// A call on `this`.
    ThisMethod,
    /// A call on another receiver.
    UnknownReceiver,
}

/// The class that contains a method: `A.B` of `A.B.m`.
pub open spec fn enclosing_class(fqn: Seq<char>) -> Option<Seq<char>> {
    match text::last_position(fqn, '.') {
        Some(i) => Some(fqn.take(i)),
        None => None,
    }
}

/// A symbol of the file that a bare call can name.
pub open spec fn local_match(repo: Seq<char>, path: Seq<char>, sym: RawSymbol, name: Seq<char>, u: Seq<char>) -> bool {
    callable(sym.kind) && sym.name@ == name && u == symbol_uid(repo, path, sym.fqn@)
}

/// A method of the class `class` of the file that a call on `this` can name.
pub open spec fn class_match(
    repo: Seq<char>,
    path: Seq<char>,
    sym: RawSymbol,
    class: Seq<char>,
    name: Seq<char>,
    u: Seq<char>,
) -> bool {
    &&& sym.kind == NodeKind::Method
    &&& sym.name@ == name
    &&& text::opt_view(sym.container_fqn) == Some(class)
    &&& u == symbol_uid(repo, path, sym.fqn@)
}

/// Whether `u` is a symbol that the names alone allow the call to reach: for a bare call a symbol
/// of the file, or of the module that the name is imported from; for a call on `this` a method of
/// the enclosing class; for any other receiver a method of that name anywhere.
pub open spec fn is_candidate(
    repo: Seq<char>,
    path: Seq<char>,
    file: AnalyzedFile,
    call: CallRef,
    index: Seq<CallableView>,
    u: Seq<char>,
) -> bool {
    let name = call.callee_name@;
    match call.receiver {
        None => {
            ||| exists|i: int|
                0 <= i < file.symbols@.len() && local_match(repo, path, #[trigger] file.symbols@[i], name, u)
            ||| import_target(file.imports@, file.imports@.len(), name) matches Some(module) && exists|i: int|
                0 <= i < index.len() && (#[trigger] index[i]).module == module && index[i].name == name
                    && index[i].uid == u
        },
        Some(receiver) => if receiver@ == "this"@ {
            enclosing_class(call.enclosing_fqn@) matches Some(class) && exists|i: int|
                0 <= i < file.symbols@.len() && class_match(repo, path, #[trigger] file.symbols@[i], class, name, u)
        } else {
            exists|i: int|
                0 <= i < index.len() && (#[trigger] index[i]).method && index[i].name == name && index[i].uid == u
        },
    }
}

/// Whether `s` lists the candidates of a call, each once, in ascending order.
pub open spec fn lists_candidates(
    repo: Seq<char>,
    path: Seq<char>,
    file: AnalyzedFile,
    call: CallRef,
    index: Seq<CallableView>,
    s: Seq<Seq<char>>,
) -> bool {
    &&& order::ascending(s)
    &&& forall|u: Seq<char>| #[trigger] s.contains(u) == is_candidate(repo, path, file, call, index, u)
}

/// The candidates of a call, in ascending order.
pub open spec fn candidates(
    repo: Seq<char>,
    path: Seq<char>,
    file: AnalyzedFile,
    call: CallRef,
    index: Seq<CallableView>,
) -> Seq<Seq<char>> {
    choose|s: Seq<Seq<char>>| lists_candidates(repo, path, file, call, index, s)
}

/// The class of a call with so many candidates.
pub open spec fn class_of(receiver: Option<String>, count: nat) -> HeuristicClass {
    match receiver {
        None => if count <= 1 {
            HeuristicClass::BareSingle
        } else {
            HeuristicClass::BareMulti
        },
        Some(r) => if r@ == "this"@ {
            HeuristicClass::ThisMethod
        } else {
            HeuristicClass::UnknownReceiver
        },
    }
}

/// The class of a call with so many candidates.
pub fn classify_site(receiver: &Option<String>, candidate_count: usize) -> (r: HeuristicClass)
    ensures
        r == class_of(*receiver, candidate_count as nat),
{
    match receiver {
        None => if candidate_count <= 1 {
            HeuristicClass::BareSingle
        } else {
            HeuristicClass::BareMulti
        },
        Some(r) => if text::same(r.as_str(), "this") {
            HeuristicClass::ThisMethod
        } else {
            HeuristicClass::UnknownReceiver
        },
    }
}

/// How an edge of a call of this class counts.
pub open spec fn confidence_of(class: HeuristicClass) -> (Provenance, u32) {
    match class {
        HeuristicClass::BareSingle => (Provenance::Inferred, CONF_BARE_SINGLE),
        HeuristicClass::BareMulti => (Provenance::Ambiguous, CONF_BARE_MULTI),
        HeuristicClass::ThisMethod => (Provenance::Inferred, CONF_THIS_METHOD),
        HeuristicClass::UnknownReceiver => (Provenance::Ambiguous, CONF_UNKNOWN_RECEIVER),
    }
}

/// The provenance and the confidence of an edge of a call of this class.
pub fn call_confidence(class: HeuristicClass) -> (r: (Provenance, u32))
    ensures
        r == confidence_of(class),
{
    match class {
        HeuristicClass::BareSingle => (Provenance::Inferred, CONF_BARE_SINGLE),
        HeuristicClass::BareMulti => (Provenance::Ambiguous, CONF_BARE_MULTI),
        HeuristicClass::ThisMethod => (Provenance::Inferred, CONF_THIS_METHOD),
        HeuristicClass::UnknownReceiver => (Provenance::Ambiguous, CONF_UNKNOWN_RECEIVER),
    }
}

/// What is decided of a call site, before any edge is added.
#[derive(Debug, PartialEq, Eq)]
pub struct SiteResolution {
    /// The precise target, where the SCIP index covers the site.
    pub scip_target: Option<MappedTarget>,
    /// The candidates by name, in ascending order.
    pub heuristic_targets: Vec<Uid>,
    pub class: HeuristicClass,
}

/// The SCIP side of a resolution: the answers of the index, the sources and the symbol tables.
pub struct ScipSide {
    pub entries: Seq<ScipEntry>,
    pub sources: Seq<SourceText>,
    pub indices: IndicesView,
}

/// What a resolver knows.
pub open spec fn side_of(resolver: Option<&SiteResolver<'_>>) -> Option<ScipSide> {
    match resolver {
        Some(r) => Some(
            ScipSide { entries: r.scip.entries@, sources: r.sources@, indices: r.indices@ },
        ),
        None => None,
    }
}

/// The line of a call as SCIP counts: from 0.
pub open spec fn callee_line(call: CallRef) -> u32 {
    if call.callee_span.start_line == 0 {
        0
    } else {
        (call.callee_span.start_line - 1) as u32
    }
}

/// The precise target of a call.
pub open spec fn precise_target(side: Option<ScipSide>, path: Seq<char>, call: CallRef) -> Option<TargetView> {
    match side {
        Some(s) => scip_merge::site_target(
            s.entries,
            s.sources,
            s.indices,
            path,
            callee_line(call),
            call.callee_span.start_col as int,
        ),
        None => None,
    }
}

fn insert_uid(set: &mut Vec<String>, u: Uid)
    requires
        order::ascending(text::views(old(set)@)),
    ensures
        order::ascending(text::views(final(set)@)),
        forall|y: Seq<char>|
            #[trigger] text::views(final(set)@).contains(y) == (text::views(old(set)@).contains(y) || y == u@),
{
    order::insert_text(set, u.0);
}

/// Whether `u` is the identifier of one of the first `n` symbols that match a bare call.
spec fn local_upto(repo: Seq<char>, path: Seq<char>, syms: Seq<RawSymbol>, name: Seq<char>, n: int, u: Seq<char>) -> bool {
    exists|i: int| 0 <= i < n && local_match(repo, path, #[trigger] syms[i], name, u)
}

/// Whether `u` is the identifier of one of the first `n` methods of a class that match.
spec fn class_upto(
    repo: Seq<char>,
    path: Seq<char>,
    syms: Seq<RawSymbol>,
    class: Seq<char>,
    name: Seq<char>,
    n: int,
    u: Seq<char>,
) -> bool {
    exists|i: int| 0 <= i < n && class_match(repo, path, #[trigger] syms[i], class, name, u)
}

/// Whether `u` is one of the first `n` callables of a module with this name.
spec fn module_upto(index: Seq<CallableView>, module: Seq<char>, name: Seq<char>, n: int, u: Seq<char>) -> bool {
    exists|i: int|
        0 <= i < n && (#[trigger] index[i]).module == module && index[i].name == name && index[i].uid == u
}

/// Whether `u` is one of the first `n` methods with this name.
spec fn method_upto(index: Seq<CallableView>, name: Seq<char>, n: int, u: Seq<char>) -> bool {
    exists|i: int| 0 <= i < n && (#[trigger] index[i]).method && index[i].name == name && index[i].uid == u
}

fn add_local_matches(set: &mut Vec<String>, repo_name: &str, path: &str, file: &AnalyzedFile, name: &str)
    requires
        old(set)@.len() == 0,
    ensures
        order::ascending(text::views(final(set)@)),
        forall|u: Seq<char>|
            #[trigger] text::views(final(set)@).contains(u) == local_upto(
                repo_name@,
                path@,
                file.symbols@,
                name@,
                file.symbols@.len() as int,
                u,
            ),
{
    let mut i: usize = 0;
    while i < file.symbols.len()
        invariant
            i <= file.symbols@.len(),
            order::ascending(text::views(set@)),
            forall|u: Seq<char>|
                #[trigger] text::views(set@).contains(u) == local_upto(
                    repo_name@,
                    path@,
                    file.symbols@,
                    name@,
                    i as int,
                    u,
                ),
        decreases file.symbols@.len() - i,
    {
        let sym = &file.symbols[i];
        let ghost before = text::views(set@);
        if (sym.kind == NodeKind::Function || sym.kind == NodeKind::Method) && text::same(sym.name.as_str(), name) {
            insert_uid(set, uid_symbol(repo_name, path, sym.fqn.as_str()));
        }
        proof {
            assert forall|u: Seq<char>| #[trigger] text::views(set@).contains(u) == local_upto(
                repo_name@,
                path@,
                file.symbols@,
                name@,
                i + 1,
                u,
            ) by {
                assert(before.contains(u) == local_upto(repo_name@, path@, file.symbols@, name@, i as int, u));
                if local_match(repo_name@, path@, file.symbols@[i as int], name@, u) {
                    assert(local_upto(repo_name@, path@, file.symbols@, name@, i + 1, u));
                }
            }
        }
        i = i + 1;
    }
}

fn add_class_matches(set: &mut Vec<String>, repo_name: &str, path: &str, file: &AnalyzedFile, class: &str, name: &str)
    requires
        old(set)@.len() == 0,
    ensures
        order::ascending(text::views(final(set)@)),
        forall|u: Seq<char>|
            #[trigger] text::views(final(set)@).contains(u) == class_upto(
                repo_name@,
                path@,
                file.symbols@,
                class@,
                name@,
                file.symbols@.len() as int,
                u,
            ),
{
    let mut i: usize = 0;
    while i < file.symbols.len()
        invariant
            i <= file.symbols@.len(),
            order::ascending(text::views(set@)),
            forall|u: Seq<char>|
                #[trigger] text::views(set@).contains(u) == class_upto(
                    repo_name@,
                    path@,
                    file.symbols@,
                    class@,
                    name@,
                    i as int,
                    u,
                ),
        decreases file.symbols@.len() - i,
    {
        let sym = &file.symbols[i];
        let ghost before = text::views(set@);
        let in_class = match &sym.container_fqn {
            Some(c) => text::same(c.as_str(), class),
            None => false,
        };
        if sym.kind == NodeKind::Method && text::same(sym.name.as_str(), name) && in_class {
            insert_uid(set, uid_symbol(repo_name, path, sym.fqn.as_str()));
        }
        proof {
            assert forall|u: Seq<char>| #[trigger] text::views(set@).contains(u) == class_upto(
                repo_name@,
                path@,
                file.symbols@,
                class@,
                name@,
                i + 1,
                u,
            ) by {
                assert(before.contains(u) == class_upto(
                    repo_name@,
                    path@,
                    file.symbols@,
                    class@,
                    name@,
                    i as int,
                    u,
                ));
                if class_match(repo_name@, path@, file.symbols@[i as int], class@, name@, u) {
                    assert(class_upto(repo_name@, path@, file.symbols@, class@, name@, i + 1, u));
                }
            }
        }
        i = i + 1;
    }
}

fn add_module_matches(set: &mut Vec<String>, index: &CallIndex, module: &str, name: &str)
    requires
        order::ascending(text::views(old(set)@)),
    ensures
        order::ascending(text::views(final(set)@)),
        forall|u: Seq<char>|
            #[trigger] text::views(final(set)@).contains(u) == (text::views(old(set)@).contains(u) || module_upto(
                index@,
                module@,
                name@,
                index@.len() as int,
                u,
            )),
{
    let ghost start = text::views(set@);
    let mut i: usize = 0;
    while i < index.entries.len()
        invariant
            i <= index.entries@.len(),
            order::ascending(text::views(set@)),
            forall|u: Seq<char>|
                #[trigger] text::views(set@).contains(u) == (start.contains(u) || module_upto(
                    index@,
                    module@,
                    name@,
                    i as int,
                    u,
                )),
        decreases index.entries@.len() - i,
    {
        let c = &index.entries[i];
        let ghost before = text::views(set@);
        assert(index@[i as int] == c@);
        if text::same(c.module.as_str(), module) && text::same(c.name.as_str(), name) {
            insert_uid(set, c.uid.clone());
        }
        proof {
            assert forall|u: Seq<char>| #[trigger] text::views(set@).contains(u) == (start.contains(u)
                || module_upto(index@, module@, name@, i + 1, u)) by {
                assert(before.contains(u) == (start.contains(u) || module_upto(index@, module@, name@, i as int, u)));
                if index@[i as int].module == module@ && index@[i as int].name == name@ && index@[i as int].uid == u {
                    assert(module_upto(index@, module@, name@, i + 1, u));
                }
            }
        }
        i = i + 1;
    }
}

fn add_method_matches(set: &mut Vec<String>, index: &CallIndex, name: &str)
    requires
        old(set)@.len() == 0,
    ensures
        order::ascending(text::views(final(set)@)),
        forall|u: Seq<char>|
            #[trigger] text::views(final(set)@).contains(u) == method_upto(index@, name@, index@.len() as int, u),
{
    let mut i: usize = 0;
    while i < index.entries.len()
        invariant
            i <= index.entries@.len(),
            order::ascending(text::views(set@)),
            forall|u: Seq<char>|
                #[trigger] text::views(set@).contains(u) == method_upto(index@, name@, i as int, u),
        decreases index.entries@.len() - i,
    {
        let c = &index.entries[i];
        let ghost before = text::views(set@);
        assert(index@[i as int] == c@);
        if c.method && text::same(c.name.as_str(), name) {
            insert_uid(set, c.uid.clone());
        }
        proof {
            assert forall|u: Seq<char>| #[trigger] text::views(set@).contains(u) == method_upto(
                index@,
                name@,
                i + 1,
                u,
            ) by {
                assert(before.contains(u) == method_upto(index@, name@, i as int, u));
                if index@[i as int].method && index@[i as int].name == name@ && index@[i as int].uid == u {
                    assert(method_upto(index@, name@, i + 1, u));
                }
            }
        }
        i = i + 1;
    }
}

fn to_uids(set: Vec<String>) -> (r: Vec<Uid>)
    ensures
        model::uid_views(r@) == text::views(set@),
{
    let mut out: Vec<Uid> = Vec::new();
    let mut i: usize = 0;
    while i < set.len()
        invariant
            i <= set@.len(),
            out@.len() == i,
            forall|j: int| 0 <= j < i ==> (#[trigger] out@[j])@ == set@[j]@,
        decreases set@.len() - i,
    {
        out.push(Uid(set[i].clone()));
        i = i + 1;
    }
    assert(model::uid_views(out@) =~= text::views(set@));
    out
}

/// The enclosing class of a method.
pub fn enclosing_class_of(enclosing_fqn: &str) -> (r: Option<String>)
    ensures
        text::opt_view(r) == enclosing_class(enclosing_fqn@),
{
    let v = text::chars_of(enclosing_fqn);
    match text::rfind(&v, '.') {
        Some(i) => Some(text::slice_text(&v, 0, i)),
        None => None,
    }
}

/// Decides a call site: its precise target and its candidates by name, without touching a graph.
pub fn resolve_site_targets(
    repo_name: &str,
    path: &str,
    file: &AnalyzedFile,
    call: &CallRef,
    index: &CallIndex,
    site_resolver: Option<&SiteResolver<'_>>,
) -> (r: SiteResolution)
    ensures
        scip_merge::opt_target_view(r.scip_target) == precise_target(side_of(site_resolver), path@, *call),
        model::uid_views(r.heuristic_targets@) == candidates(repo_name@, path@, *file, *call, index@),
        order::ascending(model::uid_views(r.heuristic_targets@)),
        forall|u: Seq<char>|
            #[trigger] model::uid_views(r.heuristic_targets@).contains(u) == is_candidate(
                repo_name@,
                path@,
                *file,
                *call,
                index@,
                u,
            ),
        r.class == class_of(call.receiver, r.heuristic_targets@.len()),
{
    let scip_target = match site_resolver {
        Some(resolver) => {
            let line0: u32 = if call.callee_span.start_line == 0 {
                0
            } else {
                call.callee_span.start_line - 1
            };
            resolver.resolve_site(path, line0, call.callee_span.start_col as usize)
        },
        None => None,
    };
    let name = call.callee_name.as_str();
    let mut set: Vec<String> = Vec::new();
    assert(text::views(set@).len() == 0);
    match &call.receiver {
        None => {
            add_local_matches(&mut set, repo_name, path, file, name);
            match imported_target(file, name) {
                Some(module) => {
                    add_module_matches(&mut set, index, module.as_str(), name);
                },
                None => {},
            }
        },
        Some(receiver) => {
            if text::same(receiver.as_str(), "this") {
                match enclosing_class_of(call.enclosing_fqn.as_str()) {
                    Some(class) => {
                        add_class_matches(&mut set, repo_name, path, file, class.as_str(), name);
                    },
                    None => {},
                }
            } else {
                add_method_matches(&mut set, index, name);
            }
        },
    }
    let ghost found = text::views(set@);
    assert forall|u: Seq<char>| #[trigger] found.contains(u) == is_candidate(
        repo_name@,
        path@,
        *file,
        *call,
        index@,
        u,
    ) by {}
    proof {
        assert(lists_candidates(repo_name@, path@, *file, *call, index@, found));
        let c = candidates(repo_name@, path@, *file, *call, index@);
        assert(lists_candidates(repo_name@, path@, *file, *call, index@, c));
        order::law_ascending_unique(found, c);
    }
    let targets = to_uids(set);
    let class = classify_site(&call.receiver, targets.len());
    SiteResolution { scip_target, heuristic_targets: targets, class }
}

// ----------------------------------------------------------------------------------------------
// Call edges
// ----------------------------------------------------------------------------------------------

/// How a call site came out.
#[derive(Clone, Copy, Debug, PartialEq, Eq, Structural)]
pub enum CallOutcome {
    /// One precise target.
    Resolved,
    /// A target by name.
    Heuristic,
    /// Several targets by name.
    Ambiguous,
    /// No target.
    Unlinked,
}

/// The name of a package, read off the identifier of its node: its part before the last.
pub open spec fn package_name(uid: Seq<char>) -> Seq<char> {
    let parts = text::split_on(uid, '|');
    if parts.len() >= 2 {
        parts[parts.len() - 2]
    } else {
        Seq::empty()
    }
}

/// The graph with the target of a call in it: a package that no import named gets its node here.
pub open spec fn with_target(g: GraphView, t: TargetView) -> GraphView {
    match t {
        TargetView::Node(_) => g,
        TargetView::External(u) => if g.has(u) {
            g
        } else {
            g.with_node(
                model::fact_node(u, NodeKind::Package, package_name(u), package_name(u), ""@, model::no_span()),
            )
        },
    }
}

/// The graph with a call edge to each of the first `n` targets.
pub open spec fn with_call_edges(
    g: GraphView,
    caller: Seq<char>,
    targets: Seq<Seq<char>>,
    prov: Provenance,
    conf: u32,
    n: nat,
) -> GraphView
    decreases n,
{
    if n == 0 {
        g
    } else {
        with_call_edges(g, caller, targets, prov, conf, (n - 1) as nat).with_edge(
            model::edge_of(caller, targets[n - 1], EdgeKind::Calls, prov, conf),
        )
    }
}

/// The graph with the edges of a call, and how the site came out. A precise target excludes the
/// others; a call that resolves to its own caller counts as resolved and gets no edge.
pub open spec fn with_call(
    g: GraphView,
    caller: Seq<char>,
    precise: Option<TargetView>,
    targets: Seq<Seq<char>>,
    class: HeuristicClass,
) -> (GraphView, CallOutcome) {
    match precise {
        Some(t) => {
            let h = with_target(g, t);
            (
                if t.uid() != caller {
                    h.with_edge(
                        model::edge_of(caller, t.uid(), EdgeKind::Calls, Provenance::Resolved, RESOLVED_CONFIDENCE),
                    )
                } else {
                    h
                },
                CallOutcome::Resolved,
            )
        },
        None => if targets.len() == 0 {
            (g, CallOutcome::Unlinked)
        } else {
            let pc = confidence_of(class);
            (
                with_call_edges(g, caller, targets, pc.0, pc.1, targets.len()),
                if pc.0 == Provenance::Ambiguous {
                    CallOutcome::Ambiguous
                } else {
                    CallOutcome::Heuristic
                },
            )
        },
    }
}

fn package_name_of(uid: &Uid) -> (r: String)
    ensures
        r@ == package_name(uid@),
{
    let parts = text::split_char(uid.as_str(), '|');
    let n: usize = parts.len();
    assert(text::views(parts@).len() == parts@.len());
    if n >= 2 {
        parts[n - 2].clone()
    } else {
        String::new()
    }
}

fn materialize_target(g: &mut Graph, target: &MappedTarget)
    ensures
        final(g)@ == with_target(old(g)@, target@),
{
    match target {
        MappedTarget::Node(_) => {},
        MappedTarget::External(pkg_uid) => {
            if !g.has_node(pkg_uid) {
                let name = package_name_of(pkg_uid);
                g.add_node(
                    model::extracted_node(
                        pkg_uid.clone(),
                        NodeKind::Package,
                        name.as_str(),
                        name.as_str(),
                        "",
                        Span::default(),
                    ),
                );
            }
        },
    }
}

/// Adds the edges of a decided call site.
pub fn add_call(g: &mut Graph, caller: &Uid, resolution: &SiteResolution) -> (r: CallOutcome)
    ensures
        (final(g)@, r) == with_call(
            old(g)@,
            caller@,
            scip_merge::opt_target_view(resolution.scip_target),
            model::uid_views(resolution.heuristic_targets@),
            resolution.class,
        ),
{
    match &resolution.scip_target {
        Some(target) => {
            materialize_target(g, target);
            let uid = target.uid();
            if !uid.same(caller) {
                g.add_edge(Edge::make(caller, uid, EdgeKind::Calls, Provenance::Resolved, RESOLVED_CONFIDENCE));
            }
            CallOutcome::Resolved
        },
        None => {
            if resolution.heuristic_targets.len() == 0 {
                return CallOutcome::Unlinked;
            }
            let (prov, conf) = call_confidence(resolution.class);
            let ghost before = g@;
            let ghost targets = model::uid_views(resolution.heuristic_targets@);
            let mut i: usize = 0;
            while i < resolution.heuristic_targets.len()
                invariant
                    i <= resolution.heuristic_targets@.len(),
                    targets == model::uid_views(resolution.heuristic_targets@),
                    g@ == with_call_edges(before, caller@, targets, prov, conf, i as nat),
                decreases resolution.heuristic_targets@.len() - i,
            {
                let t = &resolution.heuristic_targets[i];
                assert(targets[i as int] == t@);
                g.add_edge(Edge::make(caller, t, EdgeKind::Calls, prov, conf));
                i = i + 1;
            }
            if prov == Provenance::Ambiguous {
                CallOutcome::Ambiguous
            } else {
                CallOutcome::Heuristic
            }
        },
    }
}

// ----------------------------------------------------------------------------------------------
// Coverage
// ----------------------------------------------------------------------------------------------

/// How the sites of a repository came out: its call sites, and each name that it imports. A site that
/// nothing could link counts toward the total only.
#[derive(Clone, Copy, Debug, PartialEq, Eq, Structural)]
pub struct ResolutionCoverage {
    pub sites_total: usize,
    pub sites_resolved: usize,
    pub sites_heuristic: usize,
    pub sites_ambiguous: usize,
}

/// The mathematical counts of a [`ResolutionCoverage`].
pub struct CoverageView {
    pub total: nat,
    pub resolved: nat,
    pub heuristic: nat,
    pub ambiguous: nat,
}

impl ResolutionCoverage {
    /// Whether these are the counts of `v`.
    pub open spec fn counts(self, v: CoverageView) -> bool {
        &&& self.sites_total == model::cap(v.total)
        &&& self.sites_resolved == model::cap(v.resolved)
        &&& self.sites_heuristic == model::cap(v.heuristic)
        &&& self.sites_ambiguous == model::cap(v.ambiguous)
    }
}

impl CoverageView {
    /// Nothing counted.
    pub open spec fn zero() -> CoverageView {
        CoverageView { total: 0, resolved: 0, heuristic: 0, ambiguous: 0 }
    }

    /// One site more.
    pub open spec fn tally(self, outcome: CallOutcome) -> CoverageView {
        CoverageView {
            total: self.total + 1,
            resolved: self.resolved + if outcome == CallOutcome::Resolved { 1nat } else { 0 },
            heuristic: self.heuristic + if outcome == CallOutcome::Heuristic { 1nat } else { 0 },
            ambiguous: self.ambiguous + if outcome == CallOutcome::Ambiguous { 1nat } else { 0 },
        }
    }

    /// The names of an import more: linked by name where the import was resolved to a module or a
    /// package.
    pub open spec fn tally_import(self, import: ImportRef) -> CoverageView {
        let names = import.imported_names@.len();
        CoverageView {
            total: self.total + names,
            heuristic: self.heuristic + if import.resolution is Unresolved { 0nat } else { names },
            ..self
        }
    }

    /// No site is counted in two ways, and none without counting toward the total.
    pub open spec fn balanced(self) -> bool {
        self.resolved + self.heuristic + self.ambiguous <= self.total
    }
}

impl Default for ResolutionCoverage {
    fn default() -> (r: ResolutionCoverage)
        ensures
            r.counts(CoverageView::zero()),
    {
        ResolutionCoverage { sites_total: 0, sites_resolved: 0, sites_heuristic: 0, sites_ambiguous: 0 }
    }
}

impl ResolutionCoverage {
    /// Counts one site more.
    pub fn tally(&mut self, outcome: CallOutcome)
        ensures
            forall|v: CoverageView| #[trigger] old(self).counts(v) ==> final(self).counts(v.tally(outcome)),
    {
        self.sites_total = model::bump(self.sites_total);
        match outcome {
            CallOutcome::Resolved => {
                self.sites_resolved = model::bump(self.sites_resolved);
            },
            CallOutcome::Heuristic => {
                self.sites_heuristic = model::bump(self.sites_heuristic);
            },
            CallOutcome::Ambiguous => {
                self.sites_ambiguous = model::bump(self.sites_ambiguous);
            },
            CallOutcome::Unlinked => {},
        }
    }

    /// Counts the names of an import.
    pub fn tally_import(&mut self, import: &ImportRef)
        ensures
            forall|v: CoverageView| #[trigger] old(self).counts(v) ==> final(self).counts(v.tally_import(*import)),
    {
        let names: usize = import.imported_names.len();
        self.sites_total = model::plus(self.sites_total, names);
        match &import.resolution {
            ImportResolution::Unresolved => {},
            _ => {
                self.sites_heuristic = model::plus(self.sites_heuristic, names);
            },
        }
    }
}

// ----------------------------------------------------------------------------------------------
// The code plane
// ----------------------------------------------------------------------------------------------

/// The graph and the counts with the first `n` calls of a file.
pub open spec fn with_calls(
    s: (GraphView, CoverageView),
    repo: Seq<char>,
    f: FileEntry,
    index: Seq<CallableView>,
    side: Option<ScipSide>,
    n: nat,
) -> (GraphView, CoverageView)
    decreases n,
{
    if n == 0 {
        s
    } else {
        let p = with_calls(s, repo, f, index, side, (n - 1) as nat);
        let call = f.file.calls@[n - 1];
        let targets = candidates(repo, f.path@, f.file, call, index);
        let q = with_call(
            p.0,
            enclosing_uid(repo, f.path@, call.enclosing_fqn@),
            precise_target(side, f.path@, call),
            targets,
            class_of(call.receiver, targets.len()),
        );
        (q.0, p.1.tally(q.1))
    }
}

/// The graph and the counts with the calls of the first `n` files.
pub open spec fn with_all_calls(
    s: (GraphView, CoverageView),
    repo: Seq<char>,
    files: Seq<FileEntry>,
    index: Seq<CallableView>,
    side: Option<ScipSide>,
    n: nat,
) -> (GraphView, CoverageView)
    decreases n,
{
    if n == 0 {
        s
    } else {
        let f = files[n - 1];
        with_calls(
            with_all_calls(s, repo, files, index, side, (n - 1) as nat),
            repo,
            f,
            index,
            side,
            f.file.calls@.len(),
        )
    }
}

/// The counts with the names of the first `n` imports.
pub open spec fn with_import_names(v: CoverageView, imports: Seq<ImportRef>, n: nat) -> CoverageView
    decreases n,
{
    if n == 0 {
        v
    } else {
        with_import_names(v, imports, (n - 1) as nat).tally_import(imports[n - 1])
    }
}

/// The counts of the names that the first `n` files import.
pub open spec fn import_coverage(files: Seq<FileEntry>, n: nat) -> CoverageView
    decreases n,
{
    if n == 0 {
        CoverageView::zero()
    } else {
        let imports = files[n - 1].file.imports@;
        with_import_names(import_coverage(files, (n - 1) as nat), imports, imports.len())
    }
}

/// The graph of the repository node alone.
pub open spec fn repo_graph(repo: Seq<char>) -> GraphView {
    GraphView::empty().with_node(
        model::fact_node(repo_uid(repo), NodeKind::Repo, repo, repo, ""@, model::no_span()),
    )
}

/// The graph with the modules, symbols and imports of a set of files.
pub open spec fn linked_modules(repo: Seq<char>, files: Seq<FileEntry>) -> GraphView {
    with_all_imports(with_structures(repo_graph(repo), repo, files, files.len()), repo, files, files.len())
}

/// The SCIP side of a set of files.
pub open spec fn scip_side(
    repo: Seq<char>,
    files: Seq<FileEntry>,
    scip: Option<Seq<ScipEntry>>,
    sources: Seq<SourceText>,
) -> Option<ScipSide> {
    match scip {
        Some(entries) => Some(ScipSide { entries, sources, indices: scip_merge::indices_of("ts"@, repo, files) }),
        None => None,
    }
}

/// The code plane of a set of files, and how its sites came out.
pub open spec fn code_plane(
    repo: Seq<char>,
    files: Seq<FileEntry>,
    scip: Option<Seq<ScipEntry>>,
    sources: Seq<SourceText>,
) -> (GraphView, CoverageView) {
    with_all_calls(
        (linked_modules(repo, files), import_coverage(files, files.len())),
        repo,
        files,
        call_index(repo, files, files.len()),
        scip_side(repo, files, scip, sources),
        files.len(),
    )
}

/// The number of call sites of the first `n` files.
pub open spec fn call_sites(files: Seq<FileEntry>, n: nat) -> nat
    decreases n,
{
    if n == 0 {
        0
    } else {
        call_sites(files, (n - 1) as nat) + files[n - 1].file.calls@.len()
    }
}

/// The number of names that the first `n` imports bring in.
pub open spec fn names_of(imports: Seq<ImportRef>, n: nat) -> nat
    decreases n,
{
    if n == 0 {
        0
    } else {
        names_of(imports, (n - 1) as nat) + imports[n - 1].imported_names@.len()
    }
}

/// The number of names that the first `n` files import.
pub open spec fn import_sites(files: Seq<FileEntry>, n: nat) -> nat
    decreases n,
{
    if n == 0 {
        0
    } else {
        let imports = files[n - 1].file.imports@;
        import_sites(files, (n - 1) as nat) + names_of(imports, imports.len())
    }
}

/// The entries of an optional SCIP index.
pub open spec fn entries_of(scip: Option<&ScipTable>) -> Option<Seq<ScipEntry>> {
    match scip {
        Some(t) => Some(t.entries@),
        None => None,
    }
}

/// The code plane of a set of analyzed files, resolved by names alone.
pub fn assemble_graph(analyzed: &Vec<FileEntry>, repo_name: &str) -> (r: Graph)
    ensures
        r@ == code_plane(repo_name@, analyzed@, None, Seq::empty()).0,
{
    let none: Vec<SourceText> = Vec::new();
    assemble_graph_with_scip(analyzed, repo_name, None, &none)
}

/// The code plane of a set of analyzed files, resolved precisely where the index covers a site.
pub fn assemble_graph_with_scip(
    analyzed: &Vec<FileEntry>,
    repo_name: &str,
    scip: Option<&ScipTable>,
    sources: &Vec<SourceText>,
) -> (r: Graph)
    ensures
        r@ == code_plane(repo_name@, analyzed@, entries_of(scip), sources@).0,
{
    assemble_with_coverage(analyzed, repo_name, scip, sources).0
}

/// The code plane of a set of analyzed files, and how its call sites and imported names came out.
pub fn assemble_with_coverage(
    analyzed: &Vec<FileEntry>,
    repo_name: &str,
    scip: Option<&ScipTable>,
    sources: &Vec<SourceText>,
) -> (r: (Graph, ResolutionCoverage))
    ensures
        r.0@ == code_plane(repo_name@, analyzed@, entries_of(scip), sources@).0,
        r.1.counts(code_plane(repo_name@, analyzed@, entries_of(scip), sources@).1),
{
    let mut g = Graph::new();
    let repo = uid_repo(repo_name);
    g.add_node(model::extracted_node(repo, NodeKind::Repo, repo_name, repo_name, "", Span::default()));
    let mut i: usize = 0;
    while i < analyzed.len()
        invariant
            i <= analyzed@.len(),
            g@ == with_structures(repo_graph(repo_name@), repo_name@, analyzed@, i as nat),
        decreases analyzed@.len() - i,
    {
        add_structure(&mut g, repo_name, &analyzed[i]);
        i = i + 1;
    }
    let ghost structured = g@;
    let mut cov = ResolutionCoverage::default();
    let mut j: usize = 0;
    while j < analyzed.len()
        invariant
            j <= analyzed@.len(),
            g@ == with_all_imports(structured, repo_name@, analyzed@, j as nat),
            cov.counts(import_coverage(analyzed@, j as nat)),
        decreases analyzed@.len() - j,
    {
        let entry = &analyzed[j];
        add_imports(&mut g, repo_name, entry);
        let ghost base = import_coverage(analyzed@, j as nat);
        let mut m: usize = 0;
        while m < entry.file.imports.len()
            invariant
                m <= entry.file.imports@.len(),
                cov.counts(with_import_names(base, entry.file.imports@, m as nat)),
            decreases entry.file.imports@.len() - m,
        {
            cov.tally_import(&entry.file.imports[m]);
            m = m + 1;
        }
        j = j + 1;
    }
    let index = CallIndex::build(repo_name, analyzed);
    let resolver = match scip {
        Some(table) => Some(SiteResolver::new(table, sources, repo_name, analyzed)),
        None => None,
    };
    let side_ref: Option<&SiteResolver<'_>> = match &resolver {
        Some(r) => Some(r),
        None => None,
    };
    let ghost side = side_of(side_ref);
    assert(side == scip_side(repo_name@, analyzed@, entries_of(scip), sources@));
    let ghost start = (g@, import_coverage(analyzed@, analyzed@.len()));
    assert(start.0 == linked_modules(repo_name@, analyzed@));
    let mut k: usize = 0;
    while k < analyzed.len()
        invariant
            k <= analyzed@.len(),
            side == side_of(side_ref),
            index@ == call_index(repo_name@, analyzed@, analyzed@.len()),
            g@ == with_all_calls(start, repo_name@, analyzed@, index@, side, k as nat).0,
            cov.counts(with_all_calls(start, repo_name@, analyzed@, index@, side, k as nat).1),
        decreases analyzed@.len() - k,
    {
        let entry = &analyzed[k];
        let ghost base = with_all_calls(start, repo_name@, analyzed@, index@, side, k as nat);
        let mut c: usize = 0;
        while c < entry.file.calls.len()
            invariant
                c <= entry.file.calls@.len(),
                side == side_of(side_ref),
                g@ == with_calls(base, repo_name@, *entry, index@, side, c as nat).0,
                cov.counts(with_calls(base, repo_name@, *entry, index@, side, c as nat).1),
            decreases entry.file.calls@.len() - c,
        {
            let call = &entry.file.calls[c];
            let caller = uid_enclosing(repo_name, entry.path.as_str(), call.enclosing_fqn.as_str());
            let resolution = resolve_site_targets(
                repo_name,
                entry.path.as_str(),
                &entry.file,
                call,
                &index,
                side_ref,
            );
            let outcome = add_call(&mut g, &caller, &resolution);
            cov.tally(outcome);
            c = c + 1;
        }
        k = k + 1;
    }
    (g, cov)
}

// ----------------------------------------------------------------------------------------------
// Laws
// ----------------------------------------------------------------------------------------------

proof fn lemma_symbol_nodes_keep(g: GraphView, repo: Seq<char>, path: Seq<char>, syms: Seq<RawSymbol>, n: nat)
    ensures
        model::keeps(g, with_symbol_nodes(g, repo, path, syms, n)),
    decreases n,
{
    if n > 0 {
        lemma_symbol_nodes_keep(g, repo, path, syms, (n - 1) as nat);
        model::lemma_keeps_node(
            g,
            with_symbol_nodes(g, repo, path, syms, (n - 1) as nat),
            symbol_node(repo, path, syms[n - 1]),
        );
    }
}

proof fn lemma_pair_keeps(g: GraphView, h: GraphView, member: Seq<char>, container: Seq<char>)
    requires
        model::keeps(g, h),
    ensures
        model::keeps(g, with_pair(h, member, container)),
{
    let e = model::fact_edge(member, container, EdgeKind::MemberOf);
    model::lemma_keeps_edge(g, h, e);
    model::lemma_keeps_edge(g, h.with_edge(e), model::fact_edge(container, member, EdgeKind::Defines));
}

proof fn lemma_symbol_edges_keep(g: GraphView, repo: Seq<char>, path: Seq<char>, syms: Seq<RawSymbol>, n: nat)
    ensures
        model::keeps(g, with_symbol_edges(g, repo, path, syms, n)),
    decreases n,
{
    if n > 0 {
        lemma_symbol_edges_keep(g, repo, path, syms, (n - 1) as nat);
        let h = with_symbol_edges(g, repo, path, syms, (n - 1) as nat);
        lemma_pair_keeps(
            g,
            h,
            symbol_uid(repo, path, syms[n - 1].fqn@),
            container_of(h, repo, path, syms[n - 1]),
        );
    }
}

/// Placing a file keeps what was there.
pub proof fn lemma_structure_extends(g: GraphView, repo: Seq<char>, f: FileEntry)
    ensures
        model::extends(g, with_structure(g, repo, f)),
{
    let files = seq![f];
    lemma_structures_keep(g, repo, files, 1);
    reveal_with_fuel(with_structures, 2);
}

proof fn lemma_structures_keep(g: GraphView, repo: Seq<char>, files: Seq<FileEntry>, n: nat)
    ensures
        model::keeps(g, with_structures(g, repo, files, n)),
    decreases n,
{
    if n > 0 {
        lemma_structures_keep(g, repo, files, (n - 1) as nat);
        let h = with_structures(g, repo, files, (n - 1) as nat);
        let f = files[n - 1];
        let syms = f.file.symbols@;
        model::lemma_keeps_node(g, h, module_node(repo, f.path@));
        let h1 = h.with_node(module_node(repo, f.path@));
        lemma_pair_keeps(g, h1, module_uid(repo, f.path@), repo_uid(repo));
        let h2 = with_pair(h1, module_uid(repo, f.path@), repo_uid(repo));
        lemma_symbol_nodes_keep(h2, repo, f.path@, syms, syms.len());
        let h3 = with_symbol_nodes(h2, repo, f.path@, syms, syms.len());
        model::lemma_keeps_trans(g, h2, h3);
        lemma_symbol_edges_keep(h3, repo, f.path@, syms, syms.len());
        model::lemma_keeps_trans(g, h3, with_symbol_edges(h3, repo, f.path@, syms, syms.len()));
    }
}

proof fn lemma_imports_keep(g: GraphView, repo: Seq<char>, path: Seq<char>, imports: Seq<ImportRef>, n: nat)
    ensures
        model::keeps(g, with_imports(g, repo, path, imports, n)),
    decreases n,
{
    if n > 0 {
        lemma_imports_keep(g, repo, path, imports, (n - 1) as nat);
        let h = with_imports(g, repo, path, imports, (n - 1) as nat);
        let module = module_uid(repo, path);
        match imports[n - 1].resolution {
            ImportResolution::Resolved(target) => {
                model::lemma_keeps_edge(
                    g,
                    h,
                    model::fact_edge(module, module_uid(repo, target@), EdgeKind::Imports),
                );
            },
            ImportResolution::External(pkg) => {
                let node = model::fact_node(
                    package_uid(pkg@),
                    NodeKind::Package,
                    pkg@,
                    pkg@,
                    ""@,
                    model::no_span(),
                );
                model::lemma_keeps_node(g, h, node);
                model::lemma_keeps_edge(
                    g,
                    h.with_node(node),
                    model::fact_edge(module, package_uid(pkg@), EdgeKind::Imports),
                );
            },
            ImportResolution::Unresolved => {},
        }
    }
}

proof fn lemma_all_imports_keep(g: GraphView, repo: Seq<char>, files: Seq<FileEntry>, n: nat)
    ensures
        model::keeps(g, with_all_imports(g, repo, files, n)),
    decreases n,
{
    if n > 0 {
        lemma_all_imports_keep(g, repo, files, (n - 1) as nat);
        let h = with_all_imports(g, repo, files, (n - 1) as nat);
        let f = files[n - 1];
        lemma_imports_keep(h, repo, f.path@, f.file.imports@, f.file.imports@.len());
        model::lemma_keeps_trans(g, h, with_all_imports(g, repo, files, n));
    }
}

proof fn lemma_call_edges_keep(
    g: GraphView,
    caller: Seq<char>,
    targets: Seq<Seq<char>>,
    prov: Provenance,
    conf: u32,
    n: nat,
)
    requires
        model::in_band(prov, model::clamp_confidence(conf)),
    ensures
        model::keeps(g, with_call_edges(g, caller, targets, prov, conf, n)),
    decreases n,
{
    if n > 0 {
        lemma_call_edges_keep(g, caller, targets, prov, conf, (n - 1) as nat);
        model::lemma_keeps_edge(
            g,
            with_call_edges(g, caller, targets, prov, conf, (n - 1) as nat),
            model::edge_of(caller, targets[n - 1], EdgeKind::Calls, prov, conf),
        );
    }
}

proof fn lemma_call_keeps(
    g: GraphView,
    caller: Seq<char>,
    precise: Option<TargetView>,
    targets: Seq<Seq<char>>,
    class: HeuristicClass,
)
    ensures
        model::keeps(g, with_call(g, caller, precise, targets, class).0),
{
    match precise {
        Some(t) => {
            if let TargetView::External(u) = t {
                model::lemma_keeps_node(
                    g,
                    g,
                    model::fact_node(
                        u,
                        NodeKind::Package,
                        package_name(u),
                        package_name(u),
                        ""@,
                        model::no_span(),
                    ),
                );
            }
            model::lemma_keeps_edge(
                g,
                with_target(g, t),
                model::edge_of(caller, t.uid(), EdgeKind::Calls, Provenance::Resolved, RESOLVED_CONFIDENCE),
            );
        },
        None => {
            let pc = confidence_of(class);
            lemma_call_edges_keep(g, caller, targets, pc.0, pc.1, targets.len());
        },
    }
}

proof fn lemma_calls_keep(
    s: (GraphView, CoverageView),
    repo: Seq<char>,
    f: FileEntry,
    index: Seq<CallableView>,
    side: Option<ScipSide>,
    n: nat,
)
    ensures
        model::keeps(s.0, with_calls(s, repo, f, index, side, n).0),
        s.1.balanced() ==> with_calls(s, repo, f, index, side, n).1.balanced(),
        with_calls(s, repo, f, index, side, n).1.total == s.1.total + n,
        side is None ==> with_calls(s, repo, f, index, side, n).1.resolved == s.1.resolved,
    decreases n,
{
    if n > 0 {
        lemma_calls_keep(s, repo, f, index, side, (n - 1) as nat);
        let p = with_calls(s, repo, f, index, side, (n - 1) as nat);
        let call = f.file.calls@[n - 1];
        let targets = candidates(repo, f.path@, f.file, call, index);
        let caller = enclosing_uid(repo, f.path@, call.enclosing_fqn@);
        let precise = precise_target(side, f.path@, call);
        let class = class_of(call.receiver, targets.len());
        lemma_call_keeps(p.0, caller, precise, targets, class);
        model::lemma_keeps_trans(s.0, p.0, with_call(p.0, caller, precise, targets, class).0);
    }
}

proof fn lemma_all_calls_keep(
    s: (GraphView, CoverageView),
    repo: Seq<char>,
    files: Seq<FileEntry>,
    index: Seq<CallableView>,
    side: Option<ScipSide>,
    n: nat,
)
    ensures
        model::keeps(s.0, with_all_calls(s, repo, files, index, side, n).0),
        s.1.balanced() ==> with_all_calls(s, repo, files, index, side, n).1.balanced(),
        with_all_calls(s, repo, files, index, side, n).1.total == s.1.total + call_sites(files, n),
        side is None ==> with_all_calls(s, repo, files, index, side, n).1.resolved == s.1.resolved,
    decreases n,
{
    if n > 0 {
        lemma_all_calls_keep(s, repo, files, index, side, (n - 1) as nat);
        let p = with_all_calls(s, repo, files, index, side, (n - 1) as nat);
        let f = files[n - 1];
        lemma_calls_keep(p, repo, f, index, side, f.file.calls@.len());
        model::lemma_keeps_trans(s.0, p.0, with_all_calls(s, repo, files, index, side, n).0);
    }
}

/// The code plane never gives two nodes one identifier, and every one of its edges lies in the
/// band of its provenance: an inference never passes for a fact.
pub proof fn law_code_plane_sound(
    repo: Seq<char>,
    files: Seq<FileEntry>,
    scip: Option<Seq<ScipEntry>>,
    sources: Seq<SourceText>,
)
    ensures
        model::sound(code_plane(repo, files, scip, sources).0),
{
    let start = repo_graph(repo);
    let structured = with_structures(start, repo, files, files.len());
    lemma_structures_keep(start, repo, files, files.len());
    lemma_all_imports_keep(structured, repo, files, files.len());
    lemma_all_calls_keep(
        (linked_modules(repo, files), import_coverage(files, files.len())),
        repo,
        files,
        call_index(repo, files, files.len()),
        scip_side(repo, files, scip, sources),
        files.len(),
    );
}

proof fn lemma_import_names(v: CoverageView, imports: Seq<ImportRef>, n: nat)
    requires
        v.balanced(),
    ensures
        with_import_names(v, imports, n).balanced(),
        with_import_names(v, imports, n).total == v.total + names_of(imports, n),
        with_import_names(v, imports, n).resolved == v.resolved,
    decreases n,
{
    if n > 0 {
        lemma_import_names(v, imports, (n - 1) as nat);
    }
}

proof fn lemma_import_coverage(files: Seq<FileEntry>, n: nat)
    ensures
        import_coverage(files, n).balanced(),
        import_coverage(files, n).total == import_sites(files, n),
        import_coverage(files, n).resolved == 0,
    decreases n,
{
    if n > 0 {
        lemma_import_coverage(files, (n - 1) as nat);
        let imports = files[n - 1].file.imports@;
        lemma_import_names(import_coverage(files, (n - 1) as nat), imports, imports.len());
    }
}

/// Every call site and every imported name is counted once toward the total and in at most one way,
/// and without a SCIP index none counts as resolved.
pub proof fn law_code_plane_counts(
    repo: Seq<char>,
    files: Seq<FileEntry>,
    scip: Option<Seq<ScipEntry>>,
    sources: Seq<SourceText>,
)
    ensures
        code_plane(repo, files, scip, sources).1.total == call_sites(files, files.len()) + import_sites(
            files,
            files.len(),
        ),
        code_plane(repo, files, scip, sources).1.balanced(),
        scip is None ==> code_plane(repo, files, scip, sources).1.resolved == 0,
{
    lemma_import_coverage(files, files.len());
    lemma_all_calls_keep(
        (linked_modules(repo, files), import_coverage(files, files.len())),
        repo,
        files,
        call_index(repo, files, files.len()),
        scip_side(repo, files, scip, sources),
        files.len(),
    );
}

/// A precise target supersedes the candidates: the site gets no edge but the one to the target.
pub proof fn law_precise_supersedes(
    g: GraphView,
    caller: Seq<char>,
    target: TargetView,
    targets: Seq<Seq<char>>,
    class: HeuristicClass,
)
    ensures
        with_call(g, caller, Some(target), targets, class).1 == CallOutcome::Resolved,
        with_call(g, caller, Some(target), targets, class).0.edges == (if target.uid() == caller {
            g.edges
        } else {
            g.edges.push(
                model::edge_of(caller, target.uid(), EdgeKind::Calls, Provenance::Resolved, RESOLVED_CONFIDENCE),
            )
        }),
{
    if let TargetView::External(u) = target {
        model::law_with_node(
            g,
            model::fact_node(u, NodeKind::Package, package_name(u), package_name(u), ""@, model::no_span()),
        );
    }
}

} // verus!
