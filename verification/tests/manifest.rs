use strata_index::index::IndexError;
use strata_index::manifest::{
    is_slug_safe, normalize_repo_path, resolve_api_id, ApiDecl, EstateError, RepoEntry, WorkspaceManifest,
    WorkspaceMeta,
};

fn api(id: &str, spec: &str) -> ApiDecl {
    ApiDecl { id: id.to_string(), spec: spec.to_string() }
}

fn repo(name: &str, path: &str) -> RepoEntry {
    RepoEntry { name: name.into(), path: path.into(), apis: vec![] }
}

fn meta(name: &str) -> WorkspaceMeta {
    WorkspaceMeta { name: name.into() }
}

#[test]
fn resolve_api_id_defaults_to_repo_name_when_undeclared() {
    assert_eq!(resolve_api_id("repo-user", &vec![], "schema.graphql"), "repo-user");
    let apis = vec![api("billing", "billing/openapi.yaml")];
    assert_eq!(resolve_api_id("repo-user", &apis, "schema.graphql"), "repo-user");
}

#[test]
fn resolve_api_id_uses_declared_id_on_spec_match() {
    let apis = vec![api("user", "openapi.yaml"), api("admin", "admin/openapi.yaml")];
    assert_eq!(resolve_api_id("repo-svc", &apis, "openapi.yaml"), "user");
    assert_eq!(resolve_api_id("repo-svc", &apis, "admin/openapi.yaml"), "admin");
    assert_eq!(resolve_api_id("repo-svc", &apis, "other.yaml"), "repo-svc");
}

#[test]
fn resolve_api_id_first_match_wins() {
    let apis = vec![api("first", "openapi.yaml"), api("second", "openapi.yaml")];
    assert_eq!(resolve_api_id("repo", &apis, "openapi.yaml"), "first");
}

#[test]
fn is_slug_safe_accepts_lowercase_alnum_dash() {
    assert!(is_slug_safe("user"));
    assert!(is_slug_safe("user-service"));
    assert!(is_slug_safe("svc1"));
    assert!(is_slug_safe("a-b-c-2"));
}

#[test]
fn is_slug_safe_rejects_uppercase_space_underscore_empty() {
    assert!(!is_slug_safe(""));
    assert!(!is_slug_safe("User"));
    assert!(!is_slug_safe("user service"));
    assert!(!is_slug_safe("user_svc"));
    assert!(!is_slug_safe("user.svc"));
    assert!(!is_slug_safe("user/svc"));
}

#[test]
fn a_manifest_is_checked() {
    let ok = WorkspaceManifest::checked(meta("estate"), vec![repo("a", "../a"), repo("b", "../b")]);
    assert_eq!(ok.unwrap().repos.len(), 2);
    assert!(matches!(
        WorkspaceManifest::checked(meta("  "), vec![]),
        Err(EstateError::Manifest(m)) if m == "workspace.name must be non-empty"
    ));
    assert!(matches!(
        WorkspaceManifest::checked(meta("e"), vec![repo(" ", "a")]),
        Err(EstateError::Manifest(m)) if m == "repo name must be non-empty"
    ));
    assert_eq!(
        WorkspaceManifest::checked(meta("e"), vec![repo("a", "x"), repo("a", "y")]),
        Err(EstateError::DuplicateRepo("a".into()))
    );
    assert_eq!(
        WorkspaceManifest::checked(meta("e"), vec![repo("a", "svc"), repo("b", "x/../svc")]),
        Err(EstateError::DuplicateRepoPath("svc".into(), "a".into(), "b".into()))
    );
    let mut bad = repo("a", "a");
    bad.apis = vec![api("Not Safe", "s.yaml")];
    assert!(matches!(WorkspaceManifest::checked(meta("e"), vec![bad]), Err(EstateError::Manifest(_))));
}

#[test]
fn paths_are_compared_as_written_out() {
    assert_eq!(normalize_repo_path("./svc"), "svc");
    assert_eq!(normalize_repo_path("x/../svc/"), "svc");
    assert_eq!(normalize_repo_path("../svc"), "../svc");
    for p in ["", ".", "a//b/./c", "..\\..\\x\\y\\..", "/abs/../..", "a/b/../../.."] {
        let clean = normalize_repo_path(p);
        assert_eq!(normalize_repo_path(&clean), clean);
        assert!(!clean.is_empty() && !clean.contains('\\'));
    }
    assert_eq!(normalize_repo_path("a/b/../../.."), "..");
}

#[test]
fn estate_errors_say_what_is_wrong() {
    assert_eq!(EstateError::Manifest("m".into()).message(), "manifest parse error: m");
    assert_eq!(EstateError::DuplicateRepo("a".into()).message(), "duplicate repo name in manifest: a");
    assert_eq!(EstateError::Io("x".into()).message(), "io error: x");
    assert_eq!(
        EstateError::Index(IndexError::Store("locked".into())).message(),
        "index error: store error: locked"
    );
    let e = EstateError::DuplicateRepoPath("sv\"c".into(), "a".into(), "b".into());
    assert!(e.message().contains("\"sv\\\"c\" is declared by both \"a\" and \"b\""), "{}", e.message());
}
