//! The workspace manifest: which repositories form an estate.
use vstd::prelude::*;

use crate::index::IndexError;
use crate::text;

verus! {

/// A workspace manifest.
#[derive(Debug, PartialEq, Eq)]
pub struct WorkspaceManifest {
    pub workspace: WorkspaceMeta,
    pub repos: Vec<RepoEntry>,
}

/// What a manifest says of the workspace.
#[derive(Debug, PartialEq, Eq)]
pub struct WorkspaceMeta {
    pub name: String,
}

/// A repository of the workspace. Its path is relative to the directory of the manifest.
#[derive(Debug, PartialEq, Eq)]
pub struct RepoEntry {
    pub name: String,
    pub path: String,
    pub apis: Vec<ApiDecl>,
}

/// An API that a repository declares: its id and the specification that defines it. The same id in
/// two repositories makes them share the API.
#[derive(Debug, PartialEq, Eq)]
pub struct ApiDecl {
    pub id: String,
    pub spec: String,
}

impl Clone for ApiDecl {
    fn clone(&self) -> (r: ApiDecl)
        ensures
            r == *self,
    {
        ApiDecl { id: self.id.clone(), spec: self.spec.clone() }
    }
}

/// What can be wrong with an estate.
#[derive(Debug, PartialEq, Eq)]
pub enum EstateError {
    Manifest(String),
    DuplicateRepo(String),
    /// A path, and the two repositories that declare it.
    DuplicateRepoPath(String, String, String),
    Index(IndexError),
    Io(String),
}

/// The value of an [`EstateError`].
pub enum Fault {
    Manifest(Seq<char>),
    DuplicateRepo(Seq<char>),
    DuplicateRepoPath(Seq<char>, Seq<char>, Seq<char>),
    Index(Seq<char>),
    Io(Seq<char>),
}

impl View for EstateError {
    type V = Fault;

    open spec fn view(&self) -> Fault {
        match self {
            EstateError::Manifest(s) => Fault::Manifest(s@),
            EstateError::DuplicateRepo(s) => Fault::DuplicateRepo(s@),
            EstateError::DuplicateRepoPath(p, a, b) => Fault::DuplicateRepoPath(p@, a@, b@),
            EstateError::Index(e) => Fault::Index(e.text()),
            EstateError::Io(s) => Fault::Io(s@),
        }
    }
}

/// What there is to say of a fault.
pub open spec fn fault_text(f: Fault) -> Seq<char> {
    match f {
        Fault::Manifest(s) => "manifest parse error: "@ + s,
        Fault::DuplicateRepo(s) => "duplicate repo name in manifest: "@ + s,
        Fault::DuplicateRepoPath(p, a, b) => "duplicate repo path in manifest: "@ + text::debug_text(p)
            + " is declared by both "@ + text::debug_text(a) + " and "@ + text::debug_text(b)
            + " — two entries indexing one directory would overwrite each other's graph and estate marker (last writer wins)"@,
        Fault::Index(s) => "index error: "@ + s,
        Fault::Io(s) => "io error: "@ + s,
    }
}

impl EstateError {
    /// What there is to say of the error.
    pub fn message(&self) -> (r: String)
        ensures
            r@ == fault_text(self@),
    {
        match self {
            EstateError::Manifest(s) => text::concat2("manifest parse error: ", s.as_str()),
            EstateError::DuplicateRepo(s) => text::concat2("duplicate repo name in manifest: ", s.as_str()),
            EstateError::DuplicateRepoPath(p, a, b) => {
                let mut s = "duplicate repo path in manifest: ".to_owned();
                let pq = text::quoted(p.as_str());
                s.append(pq.as_str());
                s.append(" is declared by both ");
                let aq = text::quoted(a.as_str());
                s.append(aq.as_str());
                s.append(" and ");
                let bq = text::quoted(b.as_str());
                s.append(bq.as_str());
                s.append(
                    " — two entries indexing one directory would overwrite each other's graph and estate marker (last writer wins)",
                );
                s
            },
            EstateError::Index(e) => {
                let m = e.message();
                text::concat2("index error: ", m.as_str())
            },
            EstateError::Io(s) => text::concat2("io error: ", s.as_str()),
        }
    }
}

// ----------------------------------------------------------------------------------------------
// Paths and ids
// ----------------------------------------------------------------------------------------------

/// A path with slashes for backslashes.
pub open spec fn slashes(p: Seq<char>) -> Seq<char> {
    Seq::new(p.len(), |i: int| if p[i] == '\\' { '/' } else { p[i] })
}

/// The directory reached from `stack` by one part of a path: an empty part or a dot stays, a step
/// up leaves the innermost directory or, where there is none to leave, stands for itself.
pub open spec fn path_step(stack: Seq<Seq<char>>, part: Seq<char>) -> Seq<Seq<char>> {
    if part.len() == 0 || part == "."@ {
        stack
    } else if part == ".."@ {
        if stack.len() > 0 && stack.last() != ".."@ {
            stack.drop_last()
        } else {
            stack.push(".."@)
        }
    } else {
        stack.push(part)
    }
}

/// The directory reached by the first `n` parts of a path.
pub open spec fn path_steps(parts: Seq<Seq<char>>, n: nat) -> Seq<Seq<char>>
    decreases n,
{
    if n == 0 {
        Seq::empty()
    } else {
        path_step(path_steps(parts, (n - 1) as nat), parts[n - 1])
    }
}

/// A path without dots, empty parts and steps that cancel: a dot for the current directory.
pub open spec fn clean_path(p: Seq<char>) -> Seq<char> {
    let parts = text::split_on(slashes(p), '/');
    let end = path_steps(parts, parts.len());
    if end.len() == 0 {
        "."@
    } else {
        text::joined(end, "/"@)
    }
}

fn to_slashes(p: &str) -> (r: String)
    ensures
        r@ == slashes(p@),
{
    let v = text::chars_of(p);
    let mut out = String::new();
    let mut i: usize = 0;
    while i < v.len()
        invariant
            v@ == p@,
            i <= v@.len(),
            out@ == slashes(p@).take(i as int),
        decreases v@.len() - i,
    {
        let c: char = if v[i] == '\\' {
            '/'
        } else {
            v[i]
        };
        out.push(c);
        assert(out@ =~= slashes(p@).take(i + 1));
        i = i + 1;
    }
    assert(slashes(p@).take(p@.len() as int) =~= slashes(p@));
    out
}

/// A path without dots, empty parts and steps that cancel.
pub fn normalize_repo_path(p: &str) -> (r: String)
    ensures
        r@ == clean_path(p@),
{
    let s = to_slashes(p);
    let parts = text::split_char(s.as_str(), '/');
    let ghost pv = text::split_on(slashes(p@), '/');
    assert(pv.len() == parts@.len());
    let mut stack: Vec<String> = Vec::new();
    assert(text::views(stack@) =~= path_steps(pv, 0));
    let mut i: usize = 0;
    while i < parts.len()
        invariant
            i <= parts@.len(),
            text::views(parts@) == pv,
            text::views(stack@) == path_steps(pv, i as nat),
        decreases parts@.len() - i,
    {
        let part = parts[i].as_str();
        assert(pv[i as int] == part@);
        let ghost before = text::views(stack@);
        if part.is_empty() || text::same(part, ".") {
        } else if text::same(part, "..") {
            let n: usize = stack.len();
            if n > 0 && !text::same(stack[n - 1].as_str(), "..") {
                stack.pop();
                assert(text::views(stack@) =~= before.drop_last());
            } else {
                stack.push("..".to_owned());
                assert(text::views(stack@) =~= before.push(".."@));
            }
        } else {
            stack.push(parts[i].clone());
            assert(text::views(stack@) =~= before.push(part@));
        }
        i = i + 1;
    }
    assert(text::views(stack@).len() == stack@.len());
    if stack.len() == 0 {
        ".".to_owned()
    } else {
        text::join(&stack, "/")
    }
}

/// Whether these are the parts of a clean path: none empty, a dot or with a slash or backslash in it,
/// and steps up only at the front.
pub open spec fn clean_parts(parts: Seq<Seq<char>>) -> bool {
    &&& forall|i: int| 0 <= i < parts.len() ==> clean_part(#[trigger] parts[i])
    &&& forall|i: int, j: int|
        0 <= i < j < parts.len() && #[trigger] parts[j] == ".."@ ==> #[trigger] parts[i] == ".."@
}

/// Whether this is a part of a clean path.
pub open spec fn clean_part(part: Seq<char>) -> bool {
    part.len() > 0 && part != "."@ && !part.contains('/') && !part.contains('\\')
}

/// Whether a path is clean: a dot, or clean parts with a slash between each two.
pub open spec fn is_clean(p: Seq<char>) -> bool {
    p.len() > 0 && !p.contains('\\') && (p == "."@ || clean_parts(text::split_on(p, '/')))
}

/// The parts that a path comes to are those of a clean path.
pub proof fn lemma_steps_clean(parts: Seq<Seq<char>>, n: nat)
    requires
        n <= parts.len(),
        forall|i: int| 0 <= i < parts.len() ==> !(#[trigger] parts[i]).contains('/') && !parts[i].contains('\\'),
    ensures
        clean_parts(path_steps(parts, n)),
    decreases n,
{
    if n > 0 {
        lemma_steps_clean(parts, (n - 1) as nat);
        let stack = path_steps(parts, (n - 1) as nat);
        let part = parts[n - 1];
        let next = path_step(stack, part);
        assert(!part.contains('/') && !part.contains('\\'));
        reveal_strlit("..");
        reveal_strlit(".");
        assert forall|i: int| 0 <= i < next.len() implies clean_part(#[trigger] next[i]) by {
            if i < stack.len() {
                assert(next[i] == stack[i]);
            } else {
                assert(".."@.len() == 2 && "."@.len() == 1);
            }
        }
        assert forall|i: int, j: int| 0 <= i < j < next.len() && #[trigger] next[j] == ".."@ implies #[trigger] next[i]
            == ".."@ by {
            if j < stack.len() {
                assert(stack[j] == ".."@);
                assert(stack[i] == ".."@);
            } else {
                assert(stack.last() == stack[stack.len() - 1]);
                if i < stack.len() - 1 {
                    assert(stack[i] == ".."@);
                }
            }
        }
    }
}

proof fn lemma_clean_steps(parts: Seq<Seq<char>>, n: nat)
    requires
        n <= parts.len(),
        clean_parts(parts),
    ensures
        path_steps(parts, n) == parts.take(n as int),
    decreases n,
{
    if n > 0 {
        lemma_clean_steps(parts, (n - 1) as nat);
        let before = parts.take(n - 1);
        assert(clean_part(parts[n - 1]));
        if parts[n - 1] == ".."@ && before.len() > 0 {
            assert(before.last() == parts[n - 2]);
        }
        assert(parts.take(n as int) =~= before.push(parts[n - 1]));
    } else {
        assert(parts.take(0) =~= Seq::<Seq<char>>::empty());
    }
}

proof fn lemma_slashes_plain(p: Seq<char>)
    requires
        !p.contains('\\'),
    ensures
        slashes(p) == p,
{
    assert forall|i: int| 0 <= i < p.len() implies slashes(p)[i] == p[i] by {
        assert(p.contains(p[i]));
    }
    assert(slashes(p) =~= p);
}

/// Cleaning a path gives a clean path, and cleaning a clean path changes nothing.
pub proof fn law_cleaning(p: Seq<char>)
    ensures
        is_clean(clean_path(p)),
        is_clean(p) ==> clean_path(p) == p,
        clean_path(clean_path(p)) == clean_path(p),
{
    lemma_clean_result(p);
    lemma_clean_stays(clean_path(p));
    if is_clean(p) {
        lemma_clean_stays(p);
    }
}

proof fn lemma_clean_result(p: Seq<char>)
    ensures
        is_clean(clean_path(p)),
{
    let s = slashes(p);
    let parts = text::split_on(s, '/');
    text::lemma_split_pieces(s, '/');
    assert(!s.contains('\\')) by {
        if s.contains('\\') {
            let k = choose|k: int| 0 <= k < s.len() && s[k] == '\\';
            assert(s[k] != '\\');
        }
    }
    lemma_steps_clean(parts, parts.len());
    let end = path_steps(parts, parts.len());
    reveal_strlit(".");
    reveal_strlit("/");
    assert("/"@ =~= seq!['/']);
    if end.len() > 0 {
        assert forall|i: int| 0 <= i < end.len() implies !(#[trigger] end[i]).contains('/') && !end[i].contains(
            '\\',
        ) by {
            assert(clean_part(end[i]));
        }
        text::lemma_split_joined(end, "/"@, '/');
        text::lemma_joined_chars(end, "/"@, '\\');
        let r = text::joined(end, "/"@);
        if r.len() == 0 {
            assert(text::split_on(r, '/') =~= seq![Seq::<char>::empty()]);
            assert(clean_part(end[0]));
        }
    }
}

proof fn lemma_clean_stays(p: Seq<char>)
    requires
        is_clean(p),
    ensures
        clean_path(p) == p,
{
    lemma_slashes_plain(p);
    reveal_strlit(".");
    reveal_strlit("/");
    assert("/"@ =~= seq!['/']);
    let parts = text::split_on(p, '/');
    if p == "."@ {
        text::lemma_split_whole(p, '/');
        assert(parts =~= seq![p]);
        assert(path_steps(parts, 0) =~= Seq::<Seq<char>>::empty());
        assert(path_steps(parts, 1) == path_step(path_steps(parts, 0), parts[0]));
    } else {
        text::lemma_split_nonempty(p, '/');
        lemma_clean_steps(parts, parts.len());
        assert(parts.take(parts.len() as int) =~= parts);
        text::lemma_joined_split(p, '/');
    }
}

/// Whether `s` is a slug: lower-case letters, digits and dashes, at least one.
pub open spec fn slug(s: Seq<char>) -> bool {
    s.len() > 0 && forall|i: int|
        0 <= i < s.len() ==> text::lower_letter(#[trigger] s[i]) || text::digit(s[i]) || s[i] == '-'
}

/// A slug holds no bar and no slash, so that it parts cleanly from what follows it in an identifier.
pub proof fn law_slug_parts(s: Seq<char>)
    requires
        slug(s),
    ensures
        !s.contains('|'),
        !s.contains('/'),
{
    if s.contains('|') {
        let i = choose|i: int| 0 <= i < s.len() && s[i] == '|';
        assert(text::lower_letter(s[i]) || text::digit(s[i]) || s[i] == '-');
    }
    if s.contains('/') {
        let i = choose|i: int| 0 <= i < s.len() && s[i] == '/';
        assert(text::lower_letter(s[i]) || text::digit(s[i]) || s[i] == '-');
    }
}

/// Whether `s` is a slug.
pub fn is_slug_safe(s: &str) -> (r: bool)
    ensures
        r == slug(s@),
{
    let v = text::chars_of(s);
    let mut i: usize = 0;
    while i < v.len()
        invariant
            v@ == s@,
            i <= v@.len(),
            forall|j: int|
                0 <= j < i ==> text::lower_letter(#[trigger] v@[j]) || text::digit(v@[j]) || v@[j] == '-',
        decreases v@.len() - i,
    {
        let c: char = v[i];
        if !(('a' <= c && c <= 'z') || ('0' <= c && c <= '9') || c == '-') {
            assert(!(text::lower_letter(s@[i as int]) || text::digit(s@[i as int]) || s@[i as int] == '-'));
            return false;
        }
        i = i + 1;
    }
    v.len() > 0
}

/// The id of the first API at or after `from` that this specification defines.
pub open spec fn api_from(apis: Seq<ApiDecl>, spec_path: Seq<char>, from: int) -> Option<Seq<char>>
    decreases apis.len() - from,
{
    if from >= apis.len() {
        None
    } else if apis[from].spec@ == spec_path {
        Some(apis[from].id@)
    } else {
        api_from(apis, spec_path, from + 1)
    }
}

/// The API that a specification belongs to: the first that declares it, else the repository.
pub open spec fn api_of(repo: Seq<char>, apis: Seq<ApiDecl>, spec_path: Seq<char>) -> Seq<char> {
    match api_from(apis, spec_path, 0) {
        Some(id) => id,
        None => repo,
    }
}

/// The API that a specification belongs to.
pub fn resolve_api_id<'a>(repo_name: &'a str, apis: &'a Vec<ApiDecl>, spec_path: &str) -> (r: &'a str)
    ensures
        r@ == api_of(repo_name@, apis@, spec_path@),
{
    let mut i: usize = 0;
    while i < apis.len()
        invariant
            i <= apis@.len(),
            api_from(apis@, spec_path@, 0) == api_from(apis@, spec_path@, i as int),
        decreases apis@.len() - i,
    {
        if text::same(apis[i].spec.as_str(), spec_path) {
            return apis[i].id.as_str();
        }
        i = i + 1;
    }
    repo_name
}

// ----------------------------------------------------------------------------------------------
// Validation
// ----------------------------------------------------------------------------------------------

/// Whether a text is empty but for white space.
pub open spec fn blank(s: Seq<char>) -> bool {
    text::trimmed(s).len() == 0
}

/// What is said of an API whose id is no slug.
pub open spec fn bad_id_text(api: Seq<char>, repo: Seq<char>) -> Seq<char> {
    "api id "@ + text::debug_text(api) + " (repo "@ + text::debug_text(repo)
        + ") must be a non-empty slug: lowercase ascii letters, digits and dashes only"@
}

/// What is said of an API without a specification.
pub open spec fn no_spec_text(api: Seq<char>, repo: Seq<char>) -> Seq<char> {
    "api "@ + text::debug_text(api) + " (repo "@ + text::debug_text(repo)
        + ") must declare a non-empty spec path"@
}

/// The first fault of the APIs of a repository at or after `from`.
pub open spec fn api_fault(repo: RepoEntry, from: int) -> Option<Fault>
    decreases repo.apis@.len() - from,
{
    if from >= repo.apis@.len() {
        None
    } else if !slug(repo.apis@[from].id@) {
        Some(Fault::Manifest(bad_id_text(repo.apis@[from].id@, repo.name@)))
    } else if blank(repo.apis@[from].spec@) {
        Some(Fault::Manifest(no_spec_text(repo.apis@[from].id@, repo.name@)))
    } else {
        api_fault(repo, from + 1)
    }
}

/// Whether one of the first `n` repositories has this name.
pub open spec fn name_taken(repos: Seq<RepoEntry>, name: Seq<char>, n: int) -> bool {
    exists|j: int| 0 <= j < n && (#[trigger] repos[j]).name@ == name
}

/// The first repository from `from` on, before `n`, with this cleaned path, or -1.
pub open spec fn path_taken(repos: Seq<RepoEntry>, path: Seq<char>, from: int, n: int) -> int
    decreases n - from,
{
    if from >= n {
        -1
    } else if clean_path(repos[from].path@) == path {
        from
    } else {
        path_taken(repos, path, from + 1, n)
    }
}

/// The fault of a repository, given those before it.
pub open spec fn repo_fault(repos: Seq<RepoEntry>, i: int) -> Option<Fault> {
    let repo = repos[i];
    let path = clean_path(repo.path@);
    let first = path_taken(repos, path, 0, i);
    if blank(repo.name@) {
        Some(Fault::Manifest("repo name must be non-empty"@))
    } else if name_taken(repos, repo.name@, i) {
        Some(Fault::DuplicateRepo(repo.name@))
    } else if first >= 0 {
        Some(Fault::DuplicateRepoPath(path, repos[first].name@, repo.name@))
    } else {
        api_fault(repo, 0)
    }
}

/// The first fault of the repositories at or after `from`.
pub open spec fn fault_from(repos: Seq<RepoEntry>, from: int) -> Option<Fault>
    decreases repos.len() - from,
{
    if from >= repos.len() {
        None
    } else {
        match repo_fault(repos, from) {
            Some(f) => Some(f),
            None => fault_from(repos, from + 1),
        }
    }
}

/// The first fault of a manifest.
pub open spec fn manifest_fault(m: WorkspaceManifest) -> Option<Fault> {
    if blank(m.workspace.name@) {
        Some(Fault::Manifest("workspace.name must be non-empty"@))
    } else {
        fault_from(m.repos@, 0)
    }
}

/// The value of an optional error.
pub open spec fn opt_fault(e: Option<EstateError>) -> Option<Fault> {
    match e {
        Some(x) => Some(x@),
        None => None,
    }
}

fn find_api_fault(repo: &RepoEntry) -> (r: Option<EstateError>)
    ensures
        opt_fault(r) == api_fault(*repo, 0),
{
    let mut i: usize = 0;
    while i < repo.apis.len()
        invariant
            i <= repo.apis@.len(),
            api_fault(*repo, 0) == api_fault(*repo, i as int),
        decreases repo.apis@.len() - i,
    {
        let api = &repo.apis[i];
        if !is_slug_safe(api.id.as_str()) {
            let id = text::quoted(api.id.as_str());
            let name = text::quoted(repo.name.as_str());
            let mut s = text::concat3("api id ", id.as_str(), " (repo ");
            s.append(name.as_str());
            s.append(") must be a non-empty slug: lowercase ascii letters, digits and dashes only");
            return Some(EstateError::Manifest(s));
        }
        let spec_text = text::trim(api.spec.as_str());
        if spec_text.as_str().unicode_len() == 0 {
            let id = text::quoted(api.id.as_str());
            let name = text::quoted(repo.name.as_str());
            let mut s = text::concat3("api ", id.as_str(), " (repo ");
            s.append(name.as_str());
            s.append(") must declare a non-empty spec path");
            return Some(EstateError::Manifest(s));
        }
        i = i + 1;
    }
    None
}

fn find_repo_fault(repos: &Vec<RepoEntry>, at: usize) -> (r: Option<EstateError>)
    requires
        at < repos@.len(),
    ensures
        opt_fault(r) == repo_fault(repos@, at as int),
{
    let repo = &repos[at];
    let name_text = text::trim(repo.name.as_str());
    if name_text.as_str().unicode_len() == 0 {
        return Some(EstateError::Manifest("repo name must be non-empty".to_owned()));
    }
    let mut j: usize = 0;
    while j < at
        invariant
            j <= at < repos@.len(),
            *repo == repos@[at as int],
            !blank(repo.name@),
            forall|k: int| 0 <= k < j ==> (#[trigger] repos@[k]).name@ != repo.name@,
        decreases at - j,
    {
        if text::same(repos[j].name.as_str(), repo.name.as_str()) {
            return Some(EstateError::DuplicateRepo(repo.name.clone()));
        }
        j = j + 1;
    }
    let path = normalize_repo_path(repo.path.as_str());
    let mut k: usize = 0;
    while k < at
        invariant
            k <= at < repos@.len(),
            *repo == repos@[at as int],
            !blank(repo.name@),
            !name_taken(repos@, repo.name@, at as int),
            path@ == clean_path(repo.path@),
            path_taken(repos@, path@, 0, at as int) == path_taken(repos@, path@, k as int, at as int),
        decreases at - k,
    {
        let other = normalize_repo_path(repos[k].path.as_str());
        if text::same(other.as_str(), path.as_str()) {
            return Some(EstateError::DuplicateRepoPath(path, repos[k].name.clone(), repo.name.clone()));
        }
        k = k + 1;
    }
    find_api_fault(repo)
}

impl WorkspaceManifest {
    /// Checks a manifest: the workspace and every repository have a name, no two repositories share
    /// a name or a directory, every API has a slug for an id and names its specification. The error
    /// is the first fault.
    pub fn validate(&self) -> (r: Result<(), EstateError>)
        ensures
            match r {
                Ok(_) => manifest_fault(*self) is None,
                Err(e) => manifest_fault(*self) == Some(e@),
            },
    {
        let name_text = text::trim(self.workspace.name.as_str());
        if name_text.as_str().unicode_len() == 0 {
            return Err(EstateError::Manifest("workspace.name must be non-empty".to_owned()));
        }
        let mut i: usize = 0;
        while i < self.repos.len()
            invariant
                i <= self.repos@.len(),
                !blank(self.workspace.name@),
                fault_from(self.repos@, 0) == fault_from(self.repos@, i as int),
            decreases self.repos@.len() - i,
        {
            match find_repo_fault(&self.repos, i) {
                Some(e) => {
                    return Err(e);
                },
                None => {},
            }
            i = i + 1;
        }
        Ok(())
    }

    /// The manifest of its parts, checked.
    pub fn checked(workspace: WorkspaceMeta, repos: Vec<RepoEntry>) -> (r: Result<WorkspaceManifest, EstateError>)
        ensures
            match r {
                Ok(m) => m.workspace == workspace && m.repos == repos && manifest_fault(m) is None,
                Err(e) => manifest_fault(WorkspaceManifest { workspace, repos }) == Some(e@),
            },
    {
        let m = WorkspaceManifest { workspace, repos };
        match m.validate() {
            Ok(_) => Ok(m),
            Err(e) => Err(e),
        }
    }
}

/// Whether a manifest is sound: named, its repositories named and apart in name and directory, its
/// APIs with slugs and specifications.
pub open spec fn valid(m: WorkspaceManifest) -> bool {
    &&& !blank(m.workspace.name@)
    &&& forall|i: int| 0 <= i < m.repos@.len() ==> !blank((#[trigger] m.repos@[i]).name@)
    &&& forall|i: int, j: int|
        0 <= i < j < m.repos@.len() ==> (#[trigger] m.repos@[i]).name@ != (#[trigger] m.repos@[j]).name@
            && clean_path(m.repos@[i].path@) != clean_path(m.repos@[j].path@)
    &&& forall|i: int, k: int|
        0 <= i < m.repos@.len() && 0 <= k < m.repos@[i].apis@.len() ==> slug(
            (#[trigger] m.repos@[i].apis@[k]).id@,
        ) && !blank(m.repos@[i].apis@[k].spec@)
}

proof fn lemma_api_fault(repo: RepoEntry, from: int, k: int)
    requires
        api_fault(repo, from) is None,
        0 <= from <= k < repo.apis@.len(),
    ensures
        slug(repo.apis@[k].id@),
        !blank(repo.apis@[k].spec@),
    decreases k - from,
{
    if from < k {
        lemma_api_fault(repo, from + 1, k);
    }
}

proof fn lemma_api_sound(repo: RepoEntry, from: int)
    requires
        0 <= from,
        forall|k: int|
            from <= k < repo.apis@.len() ==> slug((#[trigger] repo.apis@[k]).id@) && !blank(repo.apis@[k].spec@),
    ensures
        api_fault(repo, from) is None,
    decreases repo.apis@.len() - from,
{
    if from < repo.apis@.len() {
        lemma_api_sound(repo, from + 1);
    }
}

proof fn lemma_path_taken(repos: Seq<RepoEntry>, path: Seq<char>, from: int, n: int)
    ensures
        path_taken(repos, path, from, n) >= 0 && from >= 0 ==> from <= path_taken(repos, path, from, n) < n
            && clean_path(repos[path_taken(repos, path, from, n)].path@) == path,
        path_taken(repos, path, from, n) < 0 && from >= 0 ==> forall|j: int|
            from <= j < n ==> clean_path((#[trigger] repos[j]).path@) != path,
    decreases n - from,
{
    if from < n && clean_path(repos[from].path@) != path {
        lemma_path_taken(repos, path, from + 1, n);
    }
}

proof fn lemma_fault_from(repos: Seq<RepoEntry>, from: int, i: int)
    requires
        fault_from(repos, from) is None,
        0 <= from <= i < repos.len(),
    ensures
        repo_fault(repos, i) is None,
    decreases i - from,
{
    if from < i {
        lemma_fault_from(repos, from + 1, i);
    }
}

proof fn lemma_no_fault_from(repos: Seq<RepoEntry>, from: int)
    requires
        0 <= from,
        forall|i: int| from <= i < repos.len() ==> (#[trigger] repo_fault(repos, i)) is None,
    ensures
        fault_from(repos, from) is None,
    decreases repos.len() - from,
{
    if from < repos.len() {
        assert(repo_fault(repos, from) is None);
        lemma_no_fault_from(repos, from + 1);
    }
}

/// A manifest passes validation exactly when it is sound.
pub proof fn law_validation_is_exact(m: WorkspaceManifest)
    ensures
        manifest_fault(m) is None <==> valid(m),
{
    if manifest_fault(m) is None {
        assert forall|i: int| 0 <= i < m.repos@.len() implies !blank((#[trigger] m.repos@[i]).name@) by {
            lemma_fault_from(m.repos@, 0, i);
        }
        assert forall|i: int, j: int| 0 <= i < j < m.repos@.len() implies (#[trigger] m.repos@[i]).name@ != (
        #[trigger] m.repos@[j]).name@ && clean_path(m.repos@[i].path@) != clean_path(m.repos@[j].path@) by {
            lemma_fault_from(m.repos@, 0, j);
            lemma_path_taken(m.repos@, clean_path(m.repos@[j].path@), 0, j);
            assert(!name_taken(m.repos@, m.repos@[j].name@, j));
        }
        assert forall|i: int, k: int| 0 <= i < m.repos@.len() && 0 <= k < m.repos@[i].apis@.len() implies slug(
            (#[trigger] m.repos@[i].apis@[k]).id@,
        ) && !blank(m.repos@[i].apis@[k].spec@) by {
            lemma_fault_from(m.repos@, 0, i);
            lemma_api_fault(m.repos@[i], 0, k);
        }
    }
    if valid(m) {
        assert forall|i: int| 0 <= i < m.repos@.len() implies (#[trigger] repo_fault(m.repos@, i)) is None by {
            let repo = m.repos@[i];
            lemma_path_taken(m.repos@, clean_path(repo.path@), 0, i);
            lemma_api_sound(repo, 0);
        }
        lemma_no_fault_from(m.repos@, 0);
    }
}

/// Without a declaration every specification belongs to its own repository, so that two
/// repositories never share an operation unless they declare the same API.
pub proof fn law_undeclared_stays_apart(a: Seq<char>, b: Seq<char>, spec_a: Seq<char>, spec_b: Seq<char>)
    requires
        a != b,
    ensures
        api_of(a, Seq::empty(), spec_a) != api_of(b, Seq::empty(), spec_b),
{
}

} // verus!
