use strata_index::hashing::{content_hash, hash_files, sources_hash};
use strata_index::analysis::SourceText;
use strata_index::ordmap::OrdMap;
use strata_index::resolve_mode::{
    cache_file, plan_scip, scip_runnable, settle_scip, IndexOptions, ResolveMode, ScipError, ScipOutcome, ScipPlan,
};
use strata_index::scip_merge::ScipTable;

fn options(resolve_mode: ResolveMode) -> IndexOptions {
    IndexOptions { resolve_mode, allow_install: false, include_vendored: false }
}

#[test]
fn resolve_mode_parses_case_insensitively() {
    assert_eq!(ResolveMode::parse("auto"), Some(ResolveMode::Auto));
    assert_eq!(ResolveMode::parse("ON"), Some(ResolveMode::On));
    assert_eq!(ResolveMode::parse(" Off "), Some(ResolveMode::Off));
    assert_eq!(ResolveMode::parse("nonsense"), None);
}

#[test]
fn off_mode_never_runs_scip() {
    assert_eq!(
        plan_scip(&options(ResolveMode::Off), 1, true, "/repo"),
        ScipPlan::Skip { degraded: false },
        "off is not a degradation"
    );
}

#[test]
fn auto_degrades_when_typescript_absent() {
    assert_eq!(
        plan_scip(&options(ResolveMode::Auto), 1, false, "/repo"),
        ScipPlan::Skip { degraded: true },
        "auto records the degradation"
    );
    assert_eq!(plan_scip(&options(ResolveMode::Auto), 1, true, "/repo"), ScipPlan::Run);
}

#[test]
fn on_hard_fails_when_scip_unavailable() {
    let msg = match plan_scip(&options(ResolveMode::On), 1, false, "/repo") {
        ScipPlan::Fail(e) => e.message(),
        other => panic!("on must hard-fail when scip is unavailable, got {other:?}"),
    };
    assert!(
        msg.contains("on") && msg.contains("typescript"),
        "error must explain the `on` prerequisite, got: {msg}"
    );
}

#[test]
fn on_with_no_sources_errors() {
    let msg = match plan_scip(&options(ResolveMode::On), 0, false, "/repo") {
        ScipPlan::Fail(e) => e.message(),
        other => panic!("on + no sources must be an error, got {other:?}"),
    };
    assert!(msg.contains("sources"));
}

#[test]
fn sources_hash_is_order_independent_and_content_sensitive() {
    let mut a = OrdMap::new();
    a.insert("src/a.ts".to_string(), "x".to_string());
    a.insert("src/b.ts".to_string(), "y".to_string());
    let mut b = OrdMap::new();
    b.insert("src/b.ts".to_string(), "y".to_string());
    b.insert("src/a.ts".to_string(), "x".to_string());
    assert_eq!(sources_hash(&a), sources_hash(&b));

    let mut c = OrdMap::new();
    c.insert("src/a.ts".to_string(), "x".to_string());
    c.insert("src/b.ts".to_string(), "Y".to_string());
    assert_ne!(sources_hash(&a), sources_hash(&c));
}

#[test]
fn a_failed_run_fails_only_where_it_is_needed() {
    let broken = || Err(ScipError::Failed("boom".into()));
    assert_eq!(
        settle_scip(ResolveMode::Auto, broken()),
        Ok(ScipOutcome { resolver: None, degraded: true })
    );
    assert_eq!(settle_scip(ResolveMode::On, broken()), Err(ScipError::Failed("boom".into())));
    let done = settle_scip(ResolveMode::On, Ok(ScipTable { entries: vec![] })).unwrap();
    assert!(done.resolver.is_some() && !done.degraded);
}

#[test]
fn defaults_are_auto_and_offline() {
    let opts = IndexOptions::default();
    assert_eq!(opts.resolve_mode, ResolveMode::Auto);
    assert!(!opts.allow_install && !opts.include_vendored);
    assert!(scip_runnable(true, false) && scip_runnable(false, true) && !scip_runnable(false, false));
}

#[test]
fn content_is_hashed_with_blake3() {
    assert_eq!(
        content_hash(""),
        "af1349b9f5f9a1a6a0404dea36dcc9499bcb25c9adc112b7cc9a93cae41f3262"
    );
    let files = vec![
        SourceText { path: "a".into(), text: "".into() },
        SourceText { path: "b".into(), text: "x".into() },
    ];
    let hashes = hash_files(&files);
    assert_eq!(hashes[0].path, "a");
    assert_eq!(hashes[0].hash, content_hash(""));
    assert_ne!(hashes[1].hash, hashes[0].hash);
    assert_eq!(hashes[1].hash, blake3::hash(b"x").to_hex().to_string());
}

#[test]
fn cached_indexes_are_named_by_hash() {
    assert!(cache_file("abc").contains("abc"));
    assert_ne!(cache_file("abc"), cache_file("abd"));
}
