//! What a manifest is refused for, and what a path comes to, told by the manifest and the path.
use vstd::prelude::*;

use crate::manifest;
use crate::manifest::{Fault, RepoEntry, WorkspaceManifest};
use crate::resolve_mode;
use crate::resolve_mode::ResolveMode;
use crate::text;
use crate::text_laws;

verus! {

// ----------------------------------------------------------------------------------------------
// Paths
// ----------------------------------------------------------------------------------------------

/// Whether a part of a path is the name of a file or a directory.
pub open spec fn is_name(part: Seq<char>) -> bool {
    part.len() > 0 && part != "."@ && part != ".."@ && !part.contains('/') && !part.contains('\\')
}

proof fn lemma_steps_prefix(a: Seq<Seq<char>>, b: Seq<Seq<char>>, n: nat)
    requires
        n <= a.len(),
        n <= b.len(),
        forall|i: int| 0 <= i < n ==> a[i] == b[i],
    ensures
        manifest::path_steps(a, n) == manifest::path_steps(b, n),
    decreases n,
{
    if n > 0 {
        lemma_steps_prefix(a, b, (n - 1) as nat);
    }
}

/// The parts that a path comes to.
spec fn end_of(p: Seq<char>) -> Seq<Seq<char>> {
    let parts = text::split_on(manifest::slashes(p), '/');
    manifest::path_steps(parts, parts.len())
}

proof fn lemma_plain_slashes(p: Seq<char>)
    requires
        !p.contains('\\'),
    ensures
        manifest::slashes(p) == p,
{
    assert forall|i: int| 0 <= i < p.len() implies manifest::slashes(p)[i] == p[i] by {
        assert(p.contains(p[i]));
    }
    assert(manifest::slashes(p) =~= p);
}

proof fn lemma_end_push(p: Seq<char>, part: Seq<char>)
    requires
        !part.contains('/'),
        !part.contains('\\'),
    ensures
        end_of(p.push('/') + part) == manifest::path_step(end_of(p), part),
{
    let q = p.push('/') + part;
    let s = manifest::slashes(p);
    lemma_plain_slashes(part);
    assert(manifest::slashes(q) =~= s.push('/') + part) by {
        assert forall|i: int| 0 <= i < q.len() implies manifest::slashes(q)[i] == (s.push('/') + part)[i] by {
            if i > p.len() {
                assert(q[i] == part[i - p.len() - 1]);
                assert(part.contains(part[i - p.len() - 1]));
            }
        }
    }
    text::lemma_split_append(s, part, '/');
    let a = text::split_on(s, '/');
    let b = text::split_on(manifest::slashes(q), '/');
    assert(b == a.push(part));
    lemma_steps_prefix(b, a, a.len());
}

proof fn lemma_joined_push(parts: Seq<Seq<char>>, part: Seq<char>)
    ensures
        parts.len() > 0 ==> text::joined(parts.push(part), "/"@) == text::joined(parts, "/"@).push('/') + part,
        parts.len() == 0 ==> text::joined(parts.push(part), "/"@) == part,
{
    reveal_strlit("/");
    assert(parts.push(part).drop_last() =~= parts);
    if parts.len() > 0 {
        assert(text::joined(parts, "/"@) + "/"@ + part =~= text::joined(parts, "/"@).push('/') + part);
    }
}

/// Cleaning goes part by part: a name is a step down, a step up undoes it, and neither a dot nor an empty
/// part leads anywhere. A backslash is a slash.
pub proof fn law_clean_steps(p: Seq<char>, name: Seq<char>)
    requires
        is_name(name),
    ensures
        manifest::clean_path(p.push('/')) == manifest::clean_path(p),
        manifest::clean_path(p.push('/') + "."@) == manifest::clean_path(p),
        manifest::clean_path((p.push('/') + name).push('/') + ".."@) == manifest::clean_path(p),
        manifest::clean_path(p) != "."@ ==> manifest::clean_path(p.push('/') + name) == manifest::clean_path(p).push('/')
            + name,
        manifest::clean_path(p) == "."@ ==> manifest::clean_path(p.push('/') + name) == name,
        manifest::clean_path(p.push('\\') + name) == manifest::clean_path(p.push('/') + name),
        manifest::clean_path(Seq::empty()) == "."@,
{
    reveal_strlit(".");
    reveal_strlit("..");
    let none = Seq::<char>::empty();
    assert(p.push('/') + none =~= p.push('/'));
    lemma_end_push(p, none);
    lemma_end_push(p, "."@);
    lemma_end_push(p, name);
    lemma_end_push(p.push('/') + name, ".."@);
    let end = end_of(p);
    assert(end.push(name).drop_last() =~= end);
    lemma_joined_push(end, name);
    assert(manifest::slashes(p.push('\\') + name) =~= manifest::slashes(p.push('/') + name));
    lemma_end_clean(p);
    if end.len() > 0 {
        assert(manifest::clean_path(p) != "."@) by {
            if text::joined(end, "/"@) == "."@ {
                lemma_joined_dot(end);
            }
        }
    }
    assert(manifest::slashes(none) =~= none);
    assert(text::split_on(none, '/') =~= seq![none]);
    assert(manifest::path_steps(seq![none], 1) == manifest::path_step(manifest::path_steps(seq![none], 0), none));
}

proof fn lemma_end_clean(p: Seq<char>)
    ensures
        manifest::clean_parts(end_of(p)),
{
    let s = manifest::slashes(p);
    let parts = text::split_on(s, '/');
    text::lemma_split_pieces(s, '/');
    assert(!s.contains('\\')) by {
        if s.contains('\\') {
            let k = choose|k: int| 0 <= k < s.len() && s[k] == '\\';
            assert(s[k] != '\\');
        }
    }
    manifest::lemma_steps_clean(parts, parts.len());
}

proof fn lemma_joined_dot(parts: Seq<Seq<char>>)
    requires
        parts.len() > 0,
        manifest::clean_parts(parts),
    ensures
        text::joined(parts, "/"@) != "."@,
{
    reveal_strlit("/");
    reveal_strlit(".");
    if parts.len() == 1 {
        assert(manifest::clean_part(parts[0]));
    } else {
        let s = text::joined(parts, "/"@);
        let head = text::joined(parts.drop_last(), "/"@);
        assert(manifest::clean_part(parts.last()));
        assert(s.len() >= 2);
    }
}

// ----------------------------------------------------------------------------------------------
// Faults
// ----------------------------------------------------------------------------------------------

proof fn lemma_path_first(repos: Seq<RepoEntry>, path: Seq<char>, from: int, n: int)
    requires
        0 <= from,
    ensures
        ({
            let at = manifest::path_taken(repos, path, from, n);
            &&& at >= 0 ==> from <= at < n && manifest::clean_path(repos[at].path@) == path && forall|k: int|
                from <= k < at ==> manifest::clean_path((#[trigger] repos[k]).path@) != path
            &&& at < 0 ==> forall|k: int| from <= k < n ==> manifest::clean_path((#[trigger] repos[k]).path@) != path
        }),
    decreases n - from,
{
    if from < n && manifest::clean_path(repos[from].path@) != path {
        lemma_path_first(repos, path, from + 1, n);
    }
}

/// Whether repository `j` is the first with the directory of repository `i`.
pub open spec fn is_first_there(repos: Seq<RepoEntry>, j: int, i: int) -> bool {
    &&& 0 <= j < i
    &&& manifest::clean_path(repos[j].path@) == manifest::clean_path(repos[i].path@)
    &&& forall|k: int|
        0 <= k < j ==> manifest::clean_path((#[trigger] repos[k]).path@) != manifest::clean_path(repos[i].path@)
}

/// Whether API `a` is the first of a repository with a fault.
pub open spec fn is_first_bad_api(repo: RepoEntry, a: int) -> bool {
    &&& 0 <= a < repo.apis@.len()
    &&& !manifest::slug(repo.apis@[a].id@) || manifest::blank(repo.apis@[a].spec@)
    &&& forall|k: int|
        0 <= k < a ==> manifest::slug((#[trigger] repo.apis@[k]).id@) && !manifest::blank(repo.apis@[k].spec@)
}

proof fn lemma_api_first(repo: RepoEntry, from: int)
    requires
        0 <= from,
        forall|k: int|
            0 <= k < from && k < repo.apis@.len() ==> manifest::slug((#[trigger] repo.apis@[k]).id@) && !manifest::blank(
                repo.apis@[k].spec@,
            ),
    ensures
        match manifest::api_fault(repo, from) {
            Some(f) => exists|a: int| #[trigger]
                is_first_bad_api(repo, a) && f == Fault::Manifest(
                    if !manifest::slug(repo.apis@[a].id@) {
                        manifest::bad_id_text(repo.apis@[a].id@, repo.name@)
                    } else {
                        manifest::no_spec_text(repo.apis@[a].id@, repo.name@)
                    },
                ),
            None => forall|a: int| !#[trigger] is_first_bad_api(repo, a),
        },
    decreases repo.apis@.len() - from,
{
    if from < repo.apis@.len() {
        if !manifest::slug(repo.apis@[from].id@) || manifest::blank(repo.apis@[from].spec@) {
            assert(is_first_bad_api(repo, from));
        } else {
            lemma_api_first(repo, from + 1);
        }
    }
}

/// Whether a repository is refused for its name.
pub open spec fn has_bad_name(repos: Seq<RepoEntry>, i: int) -> bool {
    manifest::blank(repos[i].name@) || exists|j: int| 0 <= j < i && (#[trigger] repos[j]).name@ == repos[i].name@
}

/// What a repository is refused for: an empty name, a name that an earlier one has, a directory that an
/// earlier one has, and a bad API, in this order.
pub proof fn law_repo_fault(repos: Seq<RepoEntry>, i: int)
    requires
        0 <= i < repos.len(),
    ensures
        ({
            let f = manifest::repo_fault(repos, i);
            let name = repos[i].name@;
            &&& manifest::blank(name) ==> f == Some(Fault::Manifest("repo name must be non-empty"@))
            &&& !manifest::blank(name) && has_bad_name(repos, i) ==> f == Some(Fault::DuplicateRepo(name))
            &&& !has_bad_name(repos, i) ==> forall|j: int| #[trigger]
                is_first_there(repos, j, i) ==> f == Some(
                    Fault::DuplicateRepoPath(manifest::clean_path(repos[i].path@), repos[j].name@, name),
                )
            &&& !has_bad_name(repos, i) && (forall|j: int| !#[trigger] is_first_there(repos, j, i)) ==> match f {
                Some(x) => exists|a: int| #[trigger]
                    is_first_bad_api(repos[i], a) && x == Fault::Manifest(
                        if !manifest::slug(repos[i].apis@[a].id@) {
                            manifest::bad_id_text(repos[i].apis@[a].id@, name)
                        } else {
                            manifest::no_spec_text(repos[i].apis@[a].id@, name)
                        },
                    ),
                None => forall|a: int| !#[trigger] is_first_bad_api(repos[i], a),
            }
        }),
{
    let path = manifest::clean_path(repos[i].path@);
    let first = manifest::path_taken(repos, path, 0, i);
    lemma_path_first(repos, path, 0, i);
    lemma_api_first(repos[i], 0);
    assert(manifest::name_taken(repos, repos[i].name@, i) == exists|j: int|
        0 <= j < i && (#[trigger] repos[j]).name@ == repos[i].name@);
    if first >= 0 {
        assert(is_first_there(repos, first, i));
    }
    assert forall|j: int| #[trigger] is_first_there(repos, j, i) implies j == first by {
        if first < 0 {
            assert(manifest::clean_path(repos[j].path@) != path);
        } else if first < j {
            assert(manifest::clean_path(repos[first].path@) != path);
        } else if j < first {
            assert(manifest::clean_path(repos[j].path@) != path);
        }
    }
}

proof fn lemma_first_fault(repos: Seq<RepoEntry>, from: int)
    requires
        0 <= from,
        forall|k: int| 0 <= k < from && k < repos.len() ==> (#[trigger] manifest::repo_fault(repos, k)) is None,
    ensures
        match manifest::fault_from(repos, from) {
            Some(f) => exists|i: int|
                0 <= i < repos.len() && #[trigger] manifest::repo_fault(repos, i) == Some(f) && forall|k: int|
                    0 <= k < i ==> (#[trigger] manifest::repo_fault(repos, k)) is None,
            None => forall|i: int| 0 <= i < repos.len() ==> (#[trigger] manifest::repo_fault(repos, i)) is None,
        },
    decreases repos.len() - from,
{
    if from < repos.len() && manifest::repo_fault(repos, from) is None {
        lemma_first_fault(repos, from + 1);
    }
}

/// A manifest is refused for its own name first, and then for its first repository with a fault.
pub proof fn law_manifest_fault(m: WorkspaceManifest)
    ensures
        manifest::blank(m.workspace.name@) ==> manifest::manifest_fault(m) == Some(
            Fault::Manifest("workspace.name must be non-empty"@),
        ),
        !manifest::blank(m.workspace.name@) ==> match manifest::manifest_fault(m) {
            Some(f) => exists|i: int|
                0 <= i < m.repos@.len() && #[trigger] manifest::repo_fault(m.repos@, i) == Some(f) && forall|k: int|
                    0 <= k < i ==> (#[trigger] manifest::repo_fault(m.repos@, k)) is None,
            None => forall|i: int| 0 <= i < m.repos@.len() ==> (#[trigger] manifest::repo_fault(m.repos@, i)) is None,
        },
{
    lemma_first_fault(m.repos@, 0);
}

/// A text is blank exactly where it is white space throughout.
pub proof fn law_blank(s: Seq<char>)
    ensures
        manifest::blank(s) <==> forall|i: int| 0 <= i < s.len() ==> text::white(#[trigger] s[i]),
{
    text_laws::law_trimmed(s);
    let t = text::trimmed(s);
    let (a, b) = choose|a: Seq<char>, b: Seq<char>| #[trigger] text_laws::is_padded(s, a, t, b);
    if t.len() == 0 {
        assert forall|i: int| 0 <= i < s.len() implies text::white(#[trigger] s[i]) by {
            if i < a.len() {
                assert(s[i] == a[i]);
            } else {
                assert(s[i] == b[i - a.len()]);
            }
        }
    } else {
        assert(s[a.len() as int] == t[0]);
    }
}

// ----------------------------------------------------------------------------------------------
// Modes
// ----------------------------------------------------------------------------------------------

/// A mode is named in any case and with white space around it, and no other text names one.
pub proof fn law_mode(s: Seq<char>)
    ensures
        ({
            let name = text::lower(text::trimmed(s));
            let r = resolve_mode::mode_named(s);
            &&& r == Some(ResolveMode::Auto) <==> name == "auto"@
            &&& r == Some(ResolveMode::On) <==> name == "on"@
            &&& r == Some(ResolveMode::Off) <==> name == "off"@
        }),
{
    reveal_strlit("auto");
    reveal_strlit("on");
    reveal_strlit("off");
    assert("auto"@.len() == 4 && "on"@.len() == 2 && "off"@.len() == 3);
}

} // verus!
