//! What a set of changed files changes: the symbols of each plane.
//!
//! Files are routed to planes by extension. The symbols of the two revisions of a file are compared
//! by key: a symbol that only moved has not changed.
use vstd::prelude::*;

use crate::analysis::RawSymbol;
use crate::contract::OperationDef;
use crate::lang;
use crate::order;
use crate::order::{SortKey, SortKeyView};
use crate::ordmap::OrdMap;
use crate::text;

verus! {

/// What a change is measured against `HEAD`.
#[derive(Clone, Copy, Debug, PartialEq, Eq, Structural)]
pub enum ChangeScope {
    /// The working tree.
    Working,
    /// The staged index.
    Staged,
}

/// The name of a scope.
pub open spec fn scope_name(scope: ChangeScope) -> Seq<char> {
    match scope {
        ChangeScope::Working => "working"@,
        ChangeScope::Staged => "staged"@,
    }
}

impl ChangeScope {
    /// The name of the scope.
    pub fn as_str(self) -> (r: &'static str)
        ensures
            r@ == scope_name(self),
    {
        match self {
            ChangeScope::Working => "working",
            ChangeScope::Staged => "staged",
        }
    }
}

/// Why changes could not be looked at.
#[derive(Debug, PartialEq, Eq)]
pub enum ChangesError {
    /// `git` could not be run.
    GitUnavailable(String),
    /// There is no repository, or it has no commit.
    NotARepo { root: String, stderr: String },
}

impl ChangesError {
    /// What there is to say of the error.
    pub open spec fn text(self) -> Seq<char> {
        match self {
            ChangesError::GitUnavailable(reason) => "git is not available: "@ + reason@
                + " — detect_changes needs the git binary on PATH"@,
            ChangesError::NotARepo { root, stderr } => "not a git repository (or no commits yet) at "@ + root@
                + ": "@ + stderr@,
        }
    }

    /// What there is to say of the error.
    pub fn message(&self) -> (r: String)
        ensures
            r@ == self.text(),
    {
        match self {
            ChangesError::GitUnavailable(reason) => text::concat3(
                "git is not available: ",
                reason.as_str(),
                " — detect_changes needs the git binary on PATH",
            ),
            ChangesError::NotARepo { root, stderr } => {
                let mut s = text::concat3("not a git repository (or no commits yet) at ", root.as_str(), ": ");
                s.append(stderr.as_str());
                s
            },
        }
    }
}

/// A changed file, its path relative to the root of the repository.
#[derive(Debug, PartialEq, Eq)]
pub enum FileChange {
    Added { path: String },
    Deleted { path: String },
    Modified { path: String },
    Renamed { old_path: String, path: String },
}

/// The value of a [`FileChange`].
pub enum FileChangeView {
    Added(Seq<char>),
    Deleted(Seq<char>),
    Modified(Seq<char>),
    /// The old path and the new one.
    Renamed(Seq<char>, Seq<char>),
}

impl View for FileChange {
    type V = FileChangeView;

    open spec fn view(&self) -> FileChangeView {
        match self {
            FileChange::Added { path } => FileChangeView::Added(path@),
            FileChange::Deleted { path } => FileChangeView::Deleted(path@),
            FileChange::Modified { path } => FileChangeView::Modified(path@),
            FileChange::Renamed { old_path, path } => FileChangeView::Renamed(old_path@, path@),
        }
    }
}

impl Clone for FileChange {
    fn clone(&self) -> (r: FileChange)
        ensures
            r == *self,
    {
        match self {
            FileChange::Added { path } => FileChange::Added { path: path.clone() },
            FileChange::Deleted { path } => FileChange::Deleted { path: path.clone() },
            FileChange::Modified { path } => FileChange::Modified { path: path.clone() },
            FileChange::Renamed { old_path, path } => FileChange::Renamed {
                old_path: old_path.clone(),
                path: path.clone(),
            },
        }
    }
}

/// The path that a change leaves, or that it removed.
pub open spec fn path_of(c: FileChangeView) -> Seq<char> {
    match c {
        FileChangeView::Added(path) => path,
        FileChangeView::Deleted(path) => path,
        FileChangeView::Modified(path) => path,
        FileChangeView::Renamed(_, path) => path,
    }
}

impl FileChange {
    /// The path that the change leaves, or that it removed.
    pub fn current_path(&self) -> (r: &str)
        ensures
            r@ == path_of(self@),
    {
        match self {
            FileChange::Added { path } => path.as_str(),
            FileChange::Deleted { path } => path.as_str(),
            FileChange::Modified { path } => path.as_str(),
            FileChange::Renamed { path, .. } => path.as_str(),
        }
    }
}

/// The plane of a changed symbol.
#[derive(Clone, Copy, Debug, PartialEq, Eq, Structural)]
pub enum Plane {
    Code,
    Contract,
    Infra,
}

/// How a symbol changed.
#[derive(Clone, Copy, Debug, PartialEq, Eq, Structural)]
pub enum ChangeKind {
    Added,
    Removed,
    Modified,
}

/// What a change to an operation does to its consumers.
#[derive(Clone, Copy, Debug, PartialEq, Eq, Structural)]
pub enum ContractChange {
    Breaking,
    Additive,
}

/// What a change does to consumers: an added operation is additive, any other change to an operation
/// breaks, and other planes have no consumers.
pub open spec fn class_of(plane: Plane, change: ChangeKind) -> Option<ContractChange> {
    if plane != Plane::Contract {
        None
    } else if change == ChangeKind::Added {
        Some(ContractChange::Additive)
    } else {
        Some(ContractChange::Breaking)
    }
}

impl ContractChange {
    /// What a change does to consumers.
    pub fn classify(plane: Plane, change: ChangeKind) -> (r: Option<ContractChange>)
        ensures
            r == class_of(plane, change),
    {
        match (plane, change) {
            (Plane::Contract, ChangeKind::Added) => Some(ContractChange::Additive),
            (Plane::Contract, _) => Some(ContractChange::Breaking),
            _ => None,
        }
    }
}

/// A changed symbol: by qualified name, operation key or logical id.
#[derive(Debug, PartialEq, Eq)]
pub struct ChangedSymbol {
    pub plane: Plane,
    pub change: ChangeKind,
    pub key: String,
    pub file: String,
    pub contract_change: Option<ContractChange>,
}

/// The value of a [`ChangedSymbol`].
#[verifier::ext_equal]
pub struct SymbolView {
    pub plane: Plane,
    pub change: ChangeKind,
    pub key: Seq<char>,
    pub file: Seq<char>,
    pub contract_change: Option<ContractChange>,
}

impl View for ChangedSymbol {
    type V = SymbolView;

    open spec fn view(&self) -> SymbolView {
        SymbolView {
            plane: self.plane,
            change: self.change,
            key: self.key@,
            file: self.file@,
            contract_change: self.contract_change,
        }
    }
}

impl Clone for ChangedSymbol {
    fn clone(&self) -> (r: ChangedSymbol)
        ensures
            r == *self,
    {
        ChangedSymbol {
            plane: self.plane,
            change: self.change,
            key: self.key.clone(),
            file: self.file.clone(),
            contract_change: self.contract_change,
        }
    }
}

/// A changed symbol, classified.
pub open spec fn symbol_of(plane: Plane, change: ChangeKind, key: Seq<char>, file: Seq<char>) -> SymbolView {
    SymbolView { plane, change, key, file, contract_change: class_of(plane, change) }
}

/// The values of a sequence of symbols.
pub open spec fn symbol_views(v: Seq<ChangedSymbol>) -> Seq<SymbolView> {
    Seq::new(v.len(), |i: int| v[i]@)
}

impl ChangedSymbol {
    /// A changed symbol, classified.
    pub fn new(plane: Plane, change: ChangeKind, key: String, file: String) -> (r: ChangedSymbol)
        ensures
            r@ == symbol_of(plane, change, key@, file@),
    {
        ChangedSymbol { plane, change, key, file, contract_change: ContractChange::classify(plane, change) }
    }
}

// ----------------------------------------------------------------------------------------------
// Routing
// ----------------------------------------------------------------------------------------------

/// The plane that a path is a candidate of, by extension. What may be a specification or a template
/// is a candidate of the contract plane.
pub open spec fn routed(path: Seq<char>) -> Option<Plane> {
    let ext = lang::extension(path);
    if lang::language(path) is Some {
        Some(Plane::Code)
    } else if ext == "graphql"@ || ext == "gql"@ || ext == "json"@ || ext == "yaml"@ || ext == "yml"@ || ext
        == "template"@ {
        Some(Plane::Contract)
    } else {
        None
    }
}

/// The plane that a path is a candidate of.
pub fn plane_for_path(path: &str) -> (r: Option<Plane>)
    ensures
        r == routed(path@),
{
    if lang::code_language_of(path).is_some() {
        return Some(Plane::Code);
    }
    let ext = lang::extension_of(path);
    let e = ext.as_str();
    if text::same(e, "graphql") || text::same(e, "gql") || text::same(e, "json") || text::same(e, "yaml")
        || text::same(e, "yml") || text::same(e, "template") {
        Some(Plane::Contract)
    } else {
        None
    }
}

// ----------------------------------------------------------------------------------------------
// Git
// ----------------------------------------------------------------------------------------------

/// The arguments of the `git` call that lists the changed files.
pub open spec fn diff_arguments(scope: ChangeScope) -> Seq<Seq<char>> {
    match scope {
        ChangeScope::Working => seq!["diff"@, "--name-status"@, "-M"@, "HEAD"@],
        ChangeScope::Staged => seq!["diff"@, "--name-status"@, "-M"@, "--cached"@, "HEAD"@],
    }
}

/// The arguments of the `git` call that lists the changed files.
pub fn diff_args(scope: ChangeScope) -> (r: Vec<String>)
    ensures
        text::views(r@) == diff_arguments(scope),
{
    let mut args: Vec<String> = Vec::new();
    args.push("diff".to_owned());
    args.push("--name-status".to_owned());
    args.push("-M".to_owned());
    if scope == ChangeScope::Staged {
        args.push("--cached".to_owned());
    }
    args.push("HEAD".to_owned());
    assert(text::views(args@) =~= diff_arguments(scope));
    args
}

/// The change that a line of `git diff --name-status` names: a status, and paths behind tabs. A
/// status that is not known is a modification of the last path.
pub open spec fn line_change(line: Seq<char>) -> Option<FileChangeView> {
    let parts = text::split_on(text::trimmed_end(line), '\t');
    if text::trimmed_end(line).len() == 0 || parts.len() < 2 {
        None
    } else {
        let code = if parts[0].len() == 0 {
            'M'
        } else {
            parts[0][0]
        };
        if code == 'A' {
            Some(FileChangeView::Added(parts[1]))
        } else if code == 'D' {
            Some(FileChangeView::Deleted(parts[1]))
        } else if (code == 'R' || code == 'C') && parts.len() >= 3 {
            Some(FileChangeView::Renamed(parts[1], parts[2]))
        } else {
            Some(FileChangeView::Modified(parts.last()))
        }
    }
}

/// The changes that the first `n` lines name.
pub open spec fn changes_upto(lines: Seq<Seq<char>>, n: nat) -> Seq<FileChangeView>
    decreases n,
{
    if n == 0 {
        Seq::empty()
    } else {
        let rest = changes_upto(lines, (n - 1) as nat);
        match line_change(lines[n - 1]) {
            Some(c) => rest.push(c),
            None => rest,
        }
    }
}

/// The values of a sequence of changes.
pub open spec fn change_views(v: Seq<FileChange>) -> Seq<FileChangeView> {
    Seq::new(v.len(), |i: int| v[i]@)
}

fn parse_line(line: &str) -> (r: Option<FileChange>)
    ensures
        match r {
            Some(c) => line_change(line@) == Some(c@),
            None => line_change(line@) is None,
        },
{
    let trimmed = text::trim_end(line);
    if trimmed.as_str().unicode_len() == 0 {
        return None;
    }
    let parts = text::split_char(trimmed.as_str(), '\t');
    let ghost pv = text::split_on(trimmed@, '\t');
    assert(pv.len() == parts@.len());
    assert forall|i: int| 0 <= i < parts@.len() implies pv[i] == (#[trigger] parts@[i])@ by {
        assert(text::views(parts@)[i] == parts@[i]@);
    }
    if parts.len() < 2 {
        return None;
    }
    let status = text::chars_of(parts[0].as_str());
    let code: char = if status.len() == 0 {
        'M'
    } else {
        status[0]
    };
    if code == 'A' {
        Some(FileChange::Added { path: parts[1].clone() })
    } else if code == 'D' {
        Some(FileChange::Deleted { path: parts[1].clone() })
    } else if (code == 'R' || code == 'C') && parts.len() >= 3 {
        Some(FileChange::Renamed { old_path: parts[1].clone(), path: parts[2].clone() })
    } else {
        Some(FileChange::Modified { path: parts[parts.len() - 1].clone() })
    }
}

/// The changes that the output of `git diff --name-status -M` names.
pub fn parse_name_status(stdout: &str) -> (r: Vec<FileChange>)
    ensures
        change_views(r@) == changes_upto(text::lines(stdout@), text::lines(stdout@).len()),
{
    let lines = text::lines_of(stdout);
    let ghost lv = text::lines(stdout@);
    let mut out: Vec<FileChange> = Vec::new();
    assert(change_views(out@) =~= changes_upto(lv, 0));
    let mut i: usize = 0;
    while i < lines.len()
        invariant
            i <= lines@.len(),
            lv == text::views(lines@),
            change_views(out@) == changes_upto(lv, i as nat),
        decreases lines@.len() - i,
    {
        assert(lv[i as int] == lines@[i as int]@);
        match parse_line(lines[i].as_str()) {
            Some(c) => {
                let ghost before = change_views(out@);
                let ghost cv = c@;
                out.push(c);
                assert(change_views(out@) =~= before.push(cv));
            },
            None => {},
        }
        i = i + 1;
    }
    out
}

/// Where a revision of a file is to be read.
#[derive(Debug, PartialEq, Eq)]
pub enum RevisionSource {
    /// What `git show` gives for this name.
    Blob(String),
    /// The file at this path of the working tree.
    WorkingFile(String),
}

/// The value of a [`RevisionSource`].
pub enum SourceView {
    Blob(Seq<char>),
    WorkingFile(Seq<char>),
}

impl View for RevisionSource {
    type V = SourceView;

    open spec fn view(&self) -> SourceView {
        match self {
            RevisionSource::Blob(name) => SourceView::Blob(name@),
            RevisionSource::WorkingFile(path) => SourceView::WorkingFile(path@),
        }
    }
}

/// The value of an optional source.
pub open spec fn opt_source(s: Option<RevisionSource>) -> Option<SourceView> {
    match s {
        Some(x) => Some(x@),
        None => None,
    }
}

/// Where the old revision of a changed file is: at `HEAD`, under its old path.
pub open spec fn old_source(c: FileChangeView) -> Option<SourceView> {
    match c {
        FileChangeView::Added(_) => None,
        FileChangeView::Deleted(path) => Some(SourceView::Blob("HEAD:"@ + path)),
        FileChangeView::Modified(path) => Some(SourceView::Blob("HEAD:"@ + path)),
        FileChangeView::Renamed(old_path, _) => Some(SourceView::Blob("HEAD:"@ + old_path)),
    }
}

/// Where the new revision of a changed file is: in the working tree or in the index.
pub open spec fn new_source(c: FileChangeView, scope: ChangeScope) -> Option<SourceView> {
    match c {
        FileChangeView::Deleted(_) => None,
        _ => Some(
            match scope {
                ChangeScope::Working => SourceView::WorkingFile(path_of(c)),
                ChangeScope::Staged => SourceView::Blob(":"@ + path_of(c)),
            },
        ),
    }
}

/// Where the old and the new revision of a changed file are.
pub fn revision_sources(c: &FileChange, scope: ChangeScope) -> (r: (Option<RevisionSource>, Option<RevisionSource>))
    ensures
        opt_source(r.0) == old_source(c@),
        opt_source(r.1) == new_source(c@, scope),
{
    let old = match c {
        FileChange::Added { .. } => None,
        FileChange::Deleted { path } => Some(RevisionSource::Blob(text::concat2("HEAD:", path.as_str()))),
        FileChange::Modified { path } => Some(RevisionSource::Blob(text::concat2("HEAD:", path.as_str()))),
        FileChange::Renamed { old_path, .. } => Some(
            RevisionSource::Blob(text::concat2("HEAD:", old_path.as_str())),
        ),
    };
    let new = match c {
        FileChange::Deleted { .. } => None,
        _ => match scope {
            ChangeScope::Working => Some(RevisionSource::WorkingFile(c.current_path().to_owned())),
            ChangeScope::Staged => Some(RevisionSource::Blob(text::concat2(":", c.current_path()))),
        },
    };
    (old, new)
}

// ----------------------------------------------------------------------------------------------
// Comparing revisions
// ----------------------------------------------------------------------------------------------

/// A revision of a file: its text, the symbols of its code, the operations that it declares and the
/// resources that it declares, each with its signature.
#[derive(Debug)]
pub struct Revision {
    pub content: String,
    pub symbols: Vec<RawSymbol>,
    pub operations: Vec<OperationDef>,
    pub resources: OrdMap<String>,
}

/// The lines from `start_line` to `end_line`, counted from one, as far as there are such lines.
pub open spec fn span_text(lines: Seq<Seq<char>>, start_line: u32, end_line: u32) -> Seq<char> {
    let start = if start_line == 0 {
        0int
    } else {
        start_line - 1
    };
    let end = if end_line < lines.len() {
        end_line as int
    } else {
        lines.len() as int
    };
    if start >= end {
        Seq::empty()
    } else {
        text::joined(lines.subrange(start, end), "\n"@)
    }
}

/// The lines from `start_line` to `end_line`, counted from one, as far as there are such lines.
pub fn slice_span(lines: &Vec<String>, start_line: u32, end_line: u32) -> (r: String)
    ensures
        r@ == span_text(text::views(lines@), start_line, end_line),
{
    let start: usize = if start_line == 0 {
        0
    } else {
        (start_line - 1) as usize
    };
    let last: usize = end_line as usize;
    let end: usize = if last < lines.len() {
        last
    } else {
        lines.len()
    };
    if start >= end {
        return String::new();
    }
    let ghost lv = text::views(lines@);
    let mut part: Vec<String> = Vec::new();
    let mut i: usize = start;
    while i < end
        invariant
            start <= i <= end <= lines@.len(),
            lv == text::views(lines@),
            text::views(part@) =~= lv.subrange(start as int, i as int),
        decreases end - i,
    {
        let ghost before = text::views(part@);
        assert(lv[i as int] == lines@[i as int]@);
        part.push(lines[i].clone());
        assert(text::views(part@) =~= before.push(lv[i as int]));
        i = i + 1;
    }
    text::join(&part, "\n")
}

/// The map that gives each name the text of its first entry among the first `n`.
pub open spec fn bodies_upto(symbols: Seq<RawSymbol>, lines: Seq<Seq<char>>, n: nat) -> Map<Seq<char>, Seq<char>>
    decreases n,
{
    if n == 0 {
        Map::empty()
    } else {
        let rest = bodies_upto(symbols, lines, (n - 1) as nat);
        let sym = symbols[n - 1];
        if rest.dom().contains(sym.fqn@) {
            rest
        } else {
            rest.insert(sym.fqn@, span_text(lines, sym.span.start_line, sym.span.end_line))
        }
    }
}

/// A map of texts, by value.
pub open spec fn text_map(m: OrdMap<String>) -> Map<Seq<char>, Seq<char>> {
    Map::new(|x: Seq<char>| m.map().dom().contains(x), |x: Seq<char>| m.map()[x]@)
}

proof fn lemma_text_map_insert(a: OrdMap<String>, b: OrdMap<String>, key: Seq<char>, value: String)
    requires
        b.map() == a.map().insert(key, value),
    ensures
        text_map(b) == text_map(a).insert(key, value@),
{
    assert(text_map(b) =~= text_map(a).insert(key, value@));
}

/// For each symbol of a text the lines that it covers. The first of a name counts.
pub fn code_symbol_bodies(symbols: &Vec<RawSymbol>, content: &str) -> (r: OrdMap<String>)
    ensures
        r.wf(),
        text_map(r) == bodies_upto(symbols@, text::lines(content@), symbols@.len()),
{
    let lines = text::lines_of(content);
    let mut m: OrdMap<String> = OrdMap::new();
    assert(text_map(m) =~= Map::<Seq<char>, Seq<char>>::empty());
    let mut i: usize = 0;
    while i < symbols.len()
        invariant
            i <= symbols@.len(),
            m.wf(),
            text::views(lines@) == text::lines(content@),
            text_map(m) == bodies_upto(symbols@, text::lines(content@), i as nat),
        decreases symbols@.len() - i,
    {
        let sym = &symbols[i];
        if !m.contains(sym.fqn.as_str()) {
            let body = slice_span(&lines, sym.span.start_line, sym.span.end_line);
            let ghost before = m;
            let ghost bv = body;
            m.insert(sym.fqn.clone(), body);
            proof {
                lemma_text_map_insert(before, m, sym.fqn@, bv);
            }
        }
        i = i + 1;
    }
    m
}

/// The map that gives each key the method and the path of its first operation among the first `n`.
pub open spec fn signatures_upto(ops: Seq<OperationDef>, n: nat) -> Map<Seq<char>, Seq<char>>
    decreases n,
{
    if n == 0 {
        Map::empty()
    } else {
        let rest = signatures_upto(ops, (n - 1) as nat);
        let op = ops[n - 1];
        if rest.dom().contains(op.key@) {
            rest
        } else {
            rest.insert(op.key@, op.method@ + " "@ + op.norm_path@)
        }
    }
}

/// For each key the method and the path of its operation. The first of a key counts.
pub fn contract_op_sigs(ops: &Vec<OperationDef>) -> (r: OrdMap<String>)
    ensures
        r.wf(),
        text_map(r) == signatures_upto(ops@, ops@.len()),
{
    let mut m: OrdMap<String> = OrdMap::new();
    assert(text_map(m) =~= Map::<Seq<char>, Seq<char>>::empty());
    let mut i: usize = 0;
    while i < ops.len()
        invariant
            i <= ops@.len(),
            m.wf(),
            text_map(m) == signatures_upto(ops@, i as nat),
        decreases ops@.len() - i,
    {
        let op = &ops[i];
        if !m.contains(op.key.as_str()) {
            let sig = text::concat3(op.method.as_str(), " ", op.norm_path.as_str());
            let ghost before = m;
            let ghost sv = sig;
            m.insert(op.key.clone(), sig);
            proof {
                lemma_text_map_insert(before, m, op.key@, sv);
            }
        }
        i = i + 1;
    }
    m
}

/// How a key changed from one map to another.
pub open spec fn key_change(old: Map<Seq<char>, Seq<char>>, new: Map<Seq<char>, Seq<char>>, key: Seq<char>) -> Option<
    ChangeKind,
> {
    if !old.dom().contains(key) && !new.dom().contains(key) {
        None
    } else if !old.dom().contains(key) {
        Some(ChangeKind::Added)
    } else if !new.dom().contains(key) {
        Some(ChangeKind::Removed)
    } else if old[key] != new[key] {
        Some(ChangeKind::Modified)
    } else {
        None
    }
}

/// The changes of the first `n` of some keys: of those that are gone, or of the others.
pub open spec fn key_changes(
    plane: Plane,
    file: Seq<char>,
    old: Map<Seq<char>, Seq<char>>,
    new: Map<Seq<char>, Seq<char>>,
    keys: Seq<Seq<char>>,
    removed: bool,
    n: nat,
) -> Seq<SymbolView>
    decreases n,
{
    if n == 0 {
        Seq::empty()
    } else {
        let rest = key_changes(plane, file, old, new, keys, removed, (n - 1) as nat);
        match key_change(old, new, keys[n - 1]) {
            Some(change) => if (change == ChangeKind::Removed) == removed {
                rest.push(symbol_of(plane, change, keys[n - 1], file))
            } else {
                rest
            },
            None => rest,
        }
    }
}

/// The changes from one map to another: what is new or different in the order of the keys, then
/// what is gone in the order of the keys.
pub open spec fn map_changes(
    plane: Plane,
    file: Seq<char>,
    old: Map<Seq<char>, Seq<char>>,
    new: Map<Seq<char>, Seq<char>>,
) -> Seq<SymbolView> {
    let nk = crate::ordmap::sorted_keys(new);
    let ok = crate::ordmap::sorted_keys(old);
    key_changes(plane, file, old, new, nk, false, nk.len()) + key_changes(plane, file, old, new, ok, true, ok.len())
}

/// The keys of a map of texts are those of the map.
proof fn lemma_text_keys(m: OrdMap<String>)
    requires
        m.wf(),
    ensures
        m.key_seq() == crate::ordmap::sorted_keys(text_map(m)),
{
    crate::ordmap::lemma_sorted_keys(m);
    let a = m.map();
    let b = text_map(m);
    let ka = crate::ordmap::sorted_keys(a);
    let kb = crate::ordmap::sorted_keys(b);
    assert forall|x: Seq<char>|
        #![trigger m.key_seq().contains(x)]
        #![trigger b.dom().contains(x)]
        m.key_seq().contains(x) == b.dom().contains(x) by {
        crate::ordmap::lemma_key_seq_contains(m, x);
    }
    assert(crate::ordmap::lists_keys(b, m.key_seq()));
    assert(crate::ordmap::lists_keys(b, kb));
    assert forall|x: Seq<char>|
        #![trigger m.key_seq().contains(x)]
        #![trigger kb.contains(x)]
        m.key_seq().contains(x) == kb.contains(x) by {
        assert(kb.contains(x) == b.dom().contains(x));
    }
    order::law_ascending_unique(m.key_seq(), kb);
}

/// The changes from one map to another.
pub fn diff_symbol_maps(plane: Plane, file: &str, old: &OrdMap<String>, new: &OrdMap<String>) -> (r: Vec<
    ChangedSymbol,
>)
    requires
        old.wf(),
        new.wf(),
    ensures
        symbol_views(r@) == map_changes(plane, file@, text_map(*old), text_map(*new)),
{
    let ghost om = text_map(*old);
    let ghost nm = text_map(*new);
    let ghost nk = new.key_seq();
    let ghost ok = old.key_seq();
    proof {
        lemma_text_keys(*old);
        lemma_text_keys(*new);
    }
    let mut out: Vec<ChangedSymbol> = Vec::new();
    assert(symbol_views(out@) =~= key_changes(plane, file@, om, nm, nk, false, 0));
    let mut i: usize = 0;
    while i < new.keys.len()
        invariant
            i <= new.keys@.len(),
            old.wf(),
            new.wf(),
            om == text_map(*old),
            nm == text_map(*new),
            nk == new.key_seq(),
            symbol_views(out@) == key_changes(plane, file@, om, nm, nk, false, i as nat),
        decreases new.keys@.len() - i,
    {
        let key = &new.keys[i];
        assert(nk[i as int] == key@);
        proof {
            new.lemma_entry(i as int);
        }
        let ghost before = symbol_views(out@);
        match old.get(key.as_str()) {
            None => {
                out.push(ChangedSymbol::new(plane, ChangeKind::Added, key.clone(), file.to_owned()));
                assert(symbol_views(out@) =~= before.push(symbol_of(plane, ChangeKind::Added, key@, file@)));
            },
            Some(old_sig) => {
                if !text::same(old_sig.as_str(), new.values[i].as_str()) {
                    out.push(ChangedSymbol::new(plane, ChangeKind::Modified, key.clone(), file.to_owned()));
                    assert(symbol_views(out@) =~= before.push(symbol_of(plane, ChangeKind::Modified, key@, file@)));
                }
            },
        }
        i = i + 1;
    }
    let ghost first = symbol_views(out@);
    assert(first + key_changes(plane, file@, om, nm, ok, true, 0) =~= first);
    let mut j: usize = 0;
    while j < old.keys.len()
        invariant
            j <= old.keys@.len(),
            old.wf(),
            new.wf(),
            om == text_map(*old),
            nm == text_map(*new),
            ok == old.key_seq(),
            symbol_views(out@) == first + key_changes(plane, file@, om, nm, ok, true, j as nat),
        decreases old.keys@.len() - j,
    {
        let key = &old.keys[j];
        assert(ok[j as int] == key@);
        proof {
            old.lemma_entry(j as int);
        }
        if !new.contains(key.as_str()) {
            let ghost before = symbol_views(out@);
            out.push(ChangedSymbol::new(plane, ChangeKind::Removed, key.clone(), file.to_owned()));
            assert(symbol_views(out@) =~= before.push(symbol_of(plane, ChangeKind::Removed, key@, file@)));
            assert(symbol_views(out@) =~= first + key_changes(plane, file@, om, nm, ok, true, (j + 1) as nat));
        }
        j = j + 1;
    }
    out
}

proof fn lemma_key_changes(
    plane: Plane,
    file: Seq<char>,
    old: Map<Seq<char>, Seq<char>>,
    new: Map<Seq<char>, Seq<char>>,
    keys: Seq<Seq<char>>,
    removed: bool,
    n: nat,
)
    requires
        n <= keys.len(),
    ensures
        forall|s: SymbolView| #[trigger]
            key_changes(plane, file, old, new, keys, removed, n).contains(s) <==> exists|i: int|
                0 <= i < n && s == symbol_of(plane, s.change, #[trigger] keys[i], file) && key_change(old, new, keys[i])
                    == Some(s.change) && (s.change == ChangeKind::Removed) == removed,
    decreases n,
{
    let all = key_changes(plane, file, old, new, keys, removed, n);
    if n > 0 {
        let m = (n - 1) as nat;
        lemma_key_changes(plane, file, old, new, keys, removed, m);
        let rest = key_changes(plane, file, old, new, keys, removed, m);
        assert forall|s: SymbolView| #[trigger] all.contains(s) <==> exists|i: int|
            0 <= i < n && s == symbol_of(plane, s.change, #[trigger] keys[i], file) && key_change(old, new, keys[i])
                == Some(s.change) && (s.change == ChangeKind::Removed) == removed by {
            assert(rest.contains(s) ==> all.contains(s)) by {
                if rest.contains(s) {
                    let j = choose|j: int| 0 <= j < rest.len() && rest[j] == s;
                    assert(all[j] == s);
                }
            }
            if all.contains(s) && !rest.contains(s) {
                let j = choose|j: int| 0 <= j < all.len() && all[j] == s;
                assert(j < rest.len() ==> rest[j] == s);
                assert(s == symbol_of(plane, s.change, keys[m as int], file));
            }
            if s == symbol_of(plane, s.change, keys[m as int], file) && key_change(old, new, keys[m as int]) == Some(
                s.change,
            ) && (s.change == ChangeKind::Removed) == removed {
                assert(all[rest.len() as int] == s);
            }
        }
    }
}

/// A key is reported exactly when it changed, as what it changed to, and nothing else is reported:
/// so two revisions whose symbols cover the same texts show no change, wherever the symbols stand.
pub proof fn law_changes_exact(old: OrdMap<String>, new: OrdMap<String>, plane: Plane, file: Seq<char>)
    requires
        old.wf(),
        new.wf(),
    ensures
        forall|s: SymbolView| #[trigger]
            map_changes(plane, file, text_map(old), text_map(new)).contains(s) <==> s == symbol_of(
                plane,
                s.change,
                s.key,
                file,
            ) && key_change(text_map(old), text_map(new), s.key) == Some(s.change),
        text_map(old) == text_map(new) ==> map_changes(plane, file, text_map(old), text_map(new)).len() == 0,
{
    let om = text_map(old);
    let nm = text_map(new);
    lemma_text_keys(old);
    lemma_text_keys(new);
    let nk = new.key_seq();
    let ok = old.key_seq();
    lemma_key_changes(plane, file, om, nm, nk, false, nk.len());
    lemma_key_changes(plane, file, om, nm, ok, true, ok.len());
    let a = key_changes(plane, file, om, nm, nk, false, nk.len());
    let b = key_changes(plane, file, om, nm, ok, true, ok.len());
    let all = map_changes(plane, file, om, nm);
    assert forall|s: SymbolView| #[trigger] all.contains(s) <==> s == symbol_of(plane, s.change, s.key, file)
        && key_change(om, nm, s.key) == Some(s.change) by {
        assert(all.contains(s) <==> a.contains(s) || b.contains(s)) by {
            if all.contains(s) {
                let j = choose|j: int| 0 <= j < all.len() && all[j] == s;
                if j < a.len() {
                    assert(a[j] == s);
                } else {
                    assert(b[j - a.len()] == s);
                }
            }
            if a.contains(s) {
                let j = choose|j: int| 0 <= j < a.len() && a[j] == s;
                assert(all[j] == s);
            }
            if b.contains(s) {
                let j = choose|j: int| 0 <= j < b.len() && b[j] == s;
                assert(all[a.len() + j] == s);
            }
        }
        if s == symbol_of(plane, s.change, s.key, file) && key_change(om, nm, s.key) == Some(s.change) {
            crate::ordmap::lemma_key_seq_contains(new, s.key);
            crate::ordmap::lemma_key_seq_contains(old, s.key);
            if s.change == ChangeKind::Removed {
                assert(ok.contains(s.key));
                let i = choose|i: int| 0 <= i < ok.len() && ok[i] == s.key;
                assert(b.contains(s));
            } else {
                assert(nk.contains(s.key));
                let i = choose|i: int| 0 <= i < nk.len() && nk[i] == s.key;
                assert(a.contains(s));
            }
        }
    }
    if om == nm && all.len() > 0 {
        assert(all.contains(all[0]));
        assert(false);
    }
}

/// The bodies of the code of a revision: none where there is no revision.
pub open spec fn bodies_in(r: Option<&Revision>) -> Map<Seq<char>, Seq<char>> {
    match r {
        Some(rev) => bodies_upto(rev.symbols@, text::lines(rev.content@), rev.symbols@.len()),
        None => Map::empty(),
    }
}

/// The signatures of the operations of a revision: none where there is no revision.
pub open spec fn signatures_in(r: Option<&Revision>) -> Map<Seq<char>, Seq<char>> {
    match r {
        Some(rev) => signatures_upto(rev.operations@, rev.operations@.len()),
        None => Map::empty(),
    }
}

/// The signatures of the resources of a revision: none where there is no revision.
pub open spec fn resources_in(r: Option<&Revision>) -> Map<Seq<char>, Seq<char>> {
    match r {
        Some(rev) => text_map(rev.resources),
        None => Map::empty(),
    }
}

/// Whether the map of a revision is valid.
pub open spec fn valid_revision(r: Option<&Revision>) -> bool {
    match r {
        Some(rev) => rev.resources.wf(),
        None => true,
    }
}

fn no_texts() -> (r: OrdMap<String>)
    ensures
        r.wf(),
        text_map(r) == Map::<Seq<char>, Seq<char>>::empty(),
{
    let m: OrdMap<String> = OrdMap::new();
    assert(text_map(m) =~= Map::<Seq<char>, Seq<char>>::empty());
    m
}

/// The changes of the code of a file. A body that only moved has not changed.
pub fn diff_code_symbols(path: &str, old: Option<&Revision>, new: Option<&Revision>) -> (r: Vec<ChangedSymbol>)
    ensures
        symbol_views(r@) == map_changes(Plane::Code, path@, bodies_in(old), bodies_in(new)),
{
    let a = match old {
        Some(rev) => code_symbol_bodies(&rev.symbols, rev.content.as_str()),
        None => no_texts(),
    };
    let b = match new {
        Some(rev) => code_symbol_bodies(&rev.symbols, rev.content.as_str()),
        None => no_texts(),
    };
    diff_symbol_maps(Plane::Code, path, &a, &b)
}

/// The changes of the operations that a file declares.
pub fn diff_contract_symbols(path: &str, old: Option<&Revision>, new: Option<&Revision>) -> (r: Vec<ChangedSymbol>)
    ensures
        symbol_views(r@) == map_changes(Plane::Contract, path@, signatures_in(old), signatures_in(new)),
{
    let a = match old {
        Some(rev) => contract_op_sigs(&rev.operations),
        None => no_texts(),
    };
    let b = match new {
        Some(rev) => contract_op_sigs(&rev.operations),
        None => no_texts(),
    };
    diff_symbol_maps(Plane::Contract, path, &a, &b)
}

/// The changes of the resources that a file declares.
pub fn diff_infra_symbols(path: &str, old: Option<&Revision>, new: Option<&Revision>) -> (r: Vec<ChangedSymbol>)
    requires
        valid_revision(old),
        valid_revision(new),
    ensures
        symbol_views(r@) == map_changes(Plane::Infra, path@, resources_in(old), resources_in(new)),
{
    let none = no_texts();
    let a = match old {
        Some(rev) => &rev.resources,
        None => &none,
    };
    let b = match new {
        Some(rev) => &rev.resources,
        None => &none,
    };
    diff_symbol_maps(Plane::Infra, path, a, b)
}

// ----------------------------------------------------------------------------------------------
// All changed files
// ----------------------------------------------------------------------------------------------

/// A changed file with its two revisions.
#[derive(Debug)]
pub struct FileDiff {
    pub change: FileChange,
    pub old: Option<Revision>,
    pub new: Option<Revision>,
}

/// The old revision.
pub open spec fn old_of(d: FileDiff) -> Option<&'static Revision> {
    match d.old {
        Some(rev) => Some(&rev),
        None => None,
    }
}

/// The new revision.
pub open spec fn new_of(d: FileDiff) -> Option<&'static Revision> {
    match d.new {
        Some(rev) => Some(&rev),
        None => None,
    }
}

/// Whether the maps of the revisions are valid.
pub open spec fn valid_diffs(diffs: Seq<FileDiff>) -> bool {
    forall|i: int| 0 <= i < diffs.len() ==> valid_revision(old_of(#[trigger] diffs[i])) && valid_revision(new_of(diffs[i]))
}

/// The changed symbols of a file: of its code, or of the operations and the resources that it
/// declares.
pub open spec fn file_symbols(d: FileDiff) -> Seq<SymbolView> {
    let path = path_of(d.change@);
    let infra = map_changes(Plane::Infra, path, resources_in(old_of(d)), resources_in(new_of(d)));
    match routed(path) {
        Some(Plane::Code) => map_changes(Plane::Code, path, bodies_in(old_of(d)), bodies_in(new_of(d))),
        Some(Plane::Contract) => map_changes(
            Plane::Contract,
            path,
            signatures_in(old_of(d)),
            signatures_in(new_of(d)),
        ) + infra,
        Some(Plane::Infra) => infra,
        None => Seq::empty(),
    }
}

/// Whether no plane claims a file: none is routed to, or it may be a specification or a template and
/// shows no change as either.
pub open spec fn unclaimed(d: FileDiff) -> bool {
    match routed(path_of(d.change@)) {
        None => true,
        Some(Plane::Contract) => file_symbols(d).len() == 0,
        _ => false,
    }
}

/// The changed symbols of the first `n` files.
pub open spec fn symbols_upto(diffs: Seq<FileDiff>, n: nat) -> Seq<SymbolView>
    decreases n,
{
    if n == 0 {
        Seq::empty()
    } else {
        symbols_upto(diffs, (n - 1) as nat) + file_symbols(diffs[n - 1])
    }
}

/// Whether `path` is one of the first `n` files, and no plane claims it.
pub open spec fn is_other(diffs: Seq<FileDiff>, path: Seq<char>, n: int) -> bool {
    exists|i: int| 0 <= i < n && unclaimed(#[trigger] diffs[i]) && path_of(diffs[i].change@) == path
}

/// The rank of a plane.
pub open spec fn plane_rank(plane: Plane) -> u64 {
    match plane {
        Plane::Code => 0,
        Plane::Contract => 1,
        Plane::Infra => 2,
    }
}

/// The key by which a changed symbol is sorted: its plane, its file and its key.
pub open spec fn symbol_key(s: SymbolView) -> SortKeyView {
    SortKeyView { rank: plane_rank(s.plane), first: s.file, second: s.key, row: 0, col: 0 }
}

/// The keys by which changed symbols are sorted.
pub open spec fn symbol_keys(s: Seq<SymbolView>) -> Seq<SortKeyView> {
    Seq::new(s.len(), |i: int| symbol_key(s[i]))
}

/// Changed symbols by plane, file and key.
pub open spec fn sorted_symbols(s: Seq<SymbolView>) -> Seq<SymbolView> {
    order::arranged(s, order::order_of(symbol_keys(s)))
}

fn rank_of(plane: Plane) -> (r: u64)
    ensures
        r == plane_rank(plane),
{
    match plane {
        Plane::Code => 0,
        Plane::Contract => 1,
        Plane::Infra => 2,
    }
}

/// Sorted symbols are in order, and none is lost or added.
pub proof fn lemma_symbols_in_order(s: Seq<SymbolView>)
    ensures
        order::in_order(symbol_keys(sorted_symbols(s))),
        sorted_symbols(s).len() == s.len(),
        forall|x: SymbolView| #[trigger] sorted_symbols(s).contains(x) == s.contains(x),
{
    let keys = symbol_keys(s);
    order::law_stable_order_exists(keys);
    order::law_sorted_in_order(keys);
    order::law_sorting_keeps(s, keys);
    assert(symbol_keys(sorted_symbols(s)) =~= order::arranged(keys, order::order_of(keys)));
}

fn sort_symbols(symbols: &Vec<ChangedSymbol>) -> (r: Vec<ChangedSymbol>)
    ensures
        symbol_views(r@) == sorted_symbols(symbol_views(symbols@)),
{
    let ghost sv = symbol_views(symbols@);
    let mut keys: Vec<SortKey> = Vec::new();
    let mut i: usize = 0;
    while i < symbols.len()
        invariant
            i <= symbols@.len(),
            keys@.len() == i,
            sv == symbol_views(symbols@),
            forall|j: int| 0 <= j < i ==> (#[trigger] keys@[j])@ == symbol_key(sv[j]),
        decreases symbols@.len() - i,
    {
        let s = &symbols[i];
        assert(sv[i as int] == s@);
        keys.push(SortKey { rank: rank_of(s.plane), first: s.file.clone(), second: s.key.clone(), row: 0, col: 0 });
        i = i + 1;
    }
    assert(order::key_views(keys@) =~= symbol_keys(sv));
    let at = order::sorted_positions(&keys);
    proof {
        order::lemma_order_of(symbol_keys(sv), order::positions(at@));
    }
    let mut out: Vec<ChangedSymbol> = Vec::new();
    let mut j: usize = 0;
    while j < at.len()
        invariant
            j <= at@.len(),
            sv == symbol_views(symbols@),
            order::stable_order(symbol_keys(sv), order::positions(at@)),
            out@.len() == j,
            forall|k: int| 0 <= k < j ==> (#[trigger] out@[k])@ == sv[at@[k] as int],
        decreases at@.len() - j,
    {
        let p: usize = at[j];
        assert(order::positions(at@)[j as int] == at@[j as int]);
        assert(0 <= at@[j as int] < symbol_keys(sv).len());
        assert(sv[p as int] == symbols@[p as int]@);
        out.push(symbols[p].clone());
        j = j + 1;
    }
    assert(symbol_views(out@) =~= order::arranged(sv, order::positions(at@)));
    out
}

fn append_symbols(out: &mut Vec<ChangedSymbol>, more: Vec<ChangedSymbol>)
    ensures
        symbol_views(final(out)@) == symbol_views(old(out)@) + symbol_views(more@),
{
    let ghost base = symbol_views(out@);
    let ghost mv = symbol_views(more@);
    assert(base + mv.take(0) =~= base);
    let mut i: usize = 0;
    while i < more.len()
        invariant
            i <= more@.len(),
            mv == symbol_views(more@),
            symbol_views(out@) == base + mv.take(i as int),
        decreases more@.len() - i,
    {
        let ghost before = symbol_views(out@);
        assert(mv[i as int] == more@[i as int]@);
        out.push(more[i].clone());
        assert(symbol_views(out@) =~= before.push(mv[i as int]));
        assert(base + mv.take(i + 1) =~= (base + mv.take(i as int)).push(mv[i as int]));
        i = i + 1;
    }
    assert(mv.take(mv.len() as int) =~= mv);
}

fn diff_file(d: &FileDiff) -> (r: (Vec<ChangedSymbol>, bool))
    requires
        valid_revision(old_of(*d)),
        valid_revision(new_of(*d)),
    ensures
        symbol_views(r.0@) == file_symbols(*d),
        r.1 == unclaimed(*d),
{
    let path = d.change.current_path();
    let old = match &d.old {
        Some(rev) => Some(rev),
        None => None,
    };
    let new = match &d.new {
        Some(rev) => Some(rev),
        None => None,
    };
    match plane_for_path(path) {
        Some(Plane::Code) => (diff_code_symbols(path, old, new), false),
        Some(Plane::Contract) => {
            let mut claimed = diff_contract_symbols(path, old, new);
            append_symbols(&mut claimed, diff_infra_symbols(path, old, new));
            assert(symbol_views(claimed@).len() == claimed@.len());
            let other = claimed.len() == 0;
            (claimed, other)
        },
        Some(Plane::Infra) => (diff_infra_symbols(path, old, new), false),
        None => {
            let none: Vec<ChangedSymbol> = Vec::new();
            assert(symbol_views(none@) =~= Seq::<SymbolView>::empty());
            (none, true)
        },
    }
}

/// What a set of changed files changes: the symbols, by plane, file and key, and the files that no
/// plane claims, each once and in order.
pub fn changed_symbols(diffs: &Vec<FileDiff>) -> (r: (Vec<ChangedSymbol>, Vec<String>))
    requires
        valid_diffs(diffs@),
    ensures
        symbol_views(r.0@) == sorted_symbols(symbols_upto(diffs@, diffs@.len())),
        order::ascending(text::views(r.1@)),
        forall|path: Seq<char>| #[trigger]
            text::views(r.1@).contains(path) == is_other(diffs@, path, diffs@.len() as int),
{
    let mut symbols: Vec<ChangedSymbol> = Vec::new();
    let mut others: Vec<String> = Vec::new();
    assert(symbol_views(symbols@) =~= symbols_upto(diffs@, 0));
    let mut i: usize = 0;
    while i < diffs.len()
        invariant
            i <= diffs@.len(),
            valid_diffs(diffs@),
            symbol_views(symbols@) == symbols_upto(diffs@, i as nat),
            order::ascending(text::views(others@)),
            forall|path: Seq<char>| #[trigger]
                text::views(others@).contains(path) == is_other(diffs@, path, i as int),
        decreases diffs@.len() - i,
    {
        let d = &diffs[i];
        assert(valid_revision(old_of(diffs@[i as int])));
        let (more, other) = diff_file(d);
        append_symbols(&mut symbols, more);
        let ghost before = text::views(others@);
        if other {
            order::insert_text(&mut others, d.change.current_path().to_owned());
        }
        assert forall|path: Seq<char>| #[trigger]
            text::views(others@).contains(path) == is_other(diffs@, path, i + 1) by {
            assert(before.contains(path) == is_other(diffs@, path, i as int));
            if unclaimed(diffs@[i as int]) && path_of(diffs@[i as int].change@) == path {
                assert(is_other(diffs@, path, i + 1));
            }
            if is_other(diffs@, path, i as int) {
                let k = choose|k: int|
                    0 <= k < i && unclaimed(#[trigger] diffs@[k]) && path_of(diffs@[k].change@) == path;
                assert(is_other(diffs@, path, i + 1));
            }
        }
        i = i + 1;
    }
    (sort_symbols(&symbols), others)
}

} // verus!
