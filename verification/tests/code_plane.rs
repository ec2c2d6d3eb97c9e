use strata_index::analysis::{
    AnalyzedFile, CallRef, FileEntry, ImportRef, ImportResolution, RawSymbol, SourceText,
};
use strata_index::code_plane::{
    assemble_graph, assemble_graph_with_scip, assemble_with_coverage, call_confidence, classify_site, uid_module,
    uid_symbol, HeuristicClass, CONF_BARE_MULTI, CONF_BARE_SINGLE, CONF_THIS_METHOD, CONF_UNKNOWN_RECEIVER,
    RESOLVED_CONFIDENCE,
};
use strata_index::differential::{
    attempted_band_provenance, last_path_segment, resolve_differential, resolve_differential_graph,
};
use strata_index::model::{EdgeKind, Graph, NodeKind, Provenance, Span, Uid};
use strata_index::scip_merge::{Position, ResolvedTarget, ScipEntry, ScipTable};

fn at(line: u32, col: u32) -> Span {
    Span { start_line: line, start_col: col, end_line: line, end_col: col }
}

fn function(name: &str, line: u32) -> RawSymbol {
    RawSymbol {
        kind: NodeKind::Function,
        name: name.into(),
        fqn: name.into(),
        container_fqn: None,
        span: at(line, 0),
    }
}

fn method(class: &str, name: &str, line: u32) -> RawSymbol {
    RawSymbol {
        kind: NodeKind::Method,
        name: name.into(),
        fqn: format!("{class}.{name}"),
        container_fqn: Some(class.into()),
        span: at(line, 0),
    }
}

fn call(name: &str, receiver: Option<&str>, enclosing: &str, line: u32, col: u32) -> CallRef {
    CallRef {
        callee_name: name.into(),
        receiver: receiver.map(|r| r.to_string()),
        receiver_is_path: false,
        enclosing_fqn: enclosing.into(),
        callee_span: at(line, col),
    }
}

fn entry(path: &str, file: AnalyzedFile) -> FileEntry {
    FileEntry { path: path.into(), file }
}

/// `run` in `a.ts` imports and calls `foo` of `b.ts`.
fn two_modules() -> Vec<FileEntry> {
    let mut a = AnalyzedFile::default();
    a.symbols = vec![function("run", 2)];
    a.imports = vec![ImportRef {
        specifier: "./b".into(),
        imported_names: vec!["foo".into()],
        resolution: ImportResolution::Resolved("src/b.ts".into()),
    }];
    a.calls = vec![call("foo", None, "run", 2, 17)];
    let mut b = AnalyzedFile::default();
    b.symbols = vec![function("foo", 1)];
    vec![entry("src/a.ts", a), entry("src/b.ts", b)]
}

fn edges(g: &Graph, kind: EdgeKind) -> Vec<(String, String, Provenance, u32)> {
    g.edges
        .iter()
        .filter(|e| e.kind == kind)
        .map(|e| (e.src.0.clone(), e.dst.0.clone(), e.provenance, e.confidence.billionths))
        .collect()
}

#[test]
fn a_single_candidate_is_inferred() {
    let g = assemble_graph(&two_modules(), "app");
    let run = uid_symbol("app", "src/a.ts", "run");
    let foo = uid_symbol("app", "src/b.ts", "foo");
    assert_eq!(
        edges(&g, EdgeKind::Calls),
        vec![(run.0.clone(), foo.0.clone(), Provenance::Inferred, CONF_BARE_SINGLE)]
    );
    let imports = edges(&g, EdgeKind::Imports);
    assert_eq!(
        imports,
        vec![(
            uid_module("app", "src/a.ts").0,
            uid_module("app", "src/b.ts").0,
            Provenance::Extracted,
            1_000_000_000
        )]
    );
}

#[test]
fn a_precise_answer_supersedes_the_guess() {
    let scip = ScipTable {
        entries: vec![ScipEntry {
            file: "src/a.ts".into(),
            position: Position { line: 1, character: 17 },
            target: ResolvedTarget {
                moniker: "scip-typescript npm pkg 1.0.0 src/`b.ts`/foo().".into(),
                is_external: false,
                def_file: Some("src/b.ts".into()),
                def_position: Some(Position { line: 0, character: 16 }),
            },
        }],
    };
    let sources = vec![
        SourceText { path: "src/a.ts".into(), text: "import {foo} from './b';\nfunction run() { foo(); }\n".into() },
        SourceText { path: "src/b.ts".into(), text: "export function foo() {}\n".into() },
    ];
    let files = two_modules();
    let (g, cov) = assemble_with_coverage(&files, "app", Some(&scip), &sources);
    let calls = edges(&g, EdgeKind::Calls);
    assert_eq!(calls.len(), 1);
    assert_eq!((calls[0].2, calls[0].3), (Provenance::Resolved, RESOLVED_CONFIDENCE));
    assert_eq!((cov.sites_total, cov.sites_resolved, cov.sites_heuristic), (2, 1, 1));
    assert_eq!(assemble_graph_with_scip(&files, "app", Some(&scip), &sources), g);

    let outcomes = resolve_differential(&files, &sources, "app", &scip);
    assert_eq!(outcomes.len(), 1);
    assert_eq!(outcomes[0].scip_target, Some(uid_symbol("app", "src/b.ts", "foo")));
    assert_eq!(outcomes[0].heuristic_targets, vec![uid_symbol("app", "src/b.ts", "foo")]);
    assert_eq!(outcomes[0].heuristic_provenance, Provenance::Inferred);

    let guessed = assemble_graph(&files, "app");
    let graph_outcomes = resolve_differential_graph(&files, &sources, &guessed, "app", "ts", &scip);
    assert_eq!(graph_outcomes.len(), 1);
    assert_eq!(graph_outcomes[0].scip_target, Some(uid_symbol("app", "src/b.ts", "foo")));
}

#[test]
fn an_unknown_receiver_is_ambiguous() {
    let mut a = AnalyzedFile::default();
    a.symbols = vec![function("run", 1), method("A", "save", 2), method("B", "save", 3)];
    a.calls = vec![call("save", Some("x"), "run", 1, 5)];
    let (g, cov) = assemble_with_coverage(&vec![entry("src/a.ts", a)], "app", None, &vec![]);
    let calls = edges(&g, EdgeKind::Calls);
    assert_eq!(calls.len(), 2);
    assert!(calls.iter().all(|c| c.2 == Provenance::Ambiguous && c.3 == CONF_UNKNOWN_RECEIVER));
    assert_eq!((cov.sites_total, cov.sites_ambiguous, cov.sites_resolved), (1, 1, 0));
}

#[test]
fn sites_are_classed_by_receiver_and_count() {
    assert_eq!(classify_site(&None, 1), HeuristicClass::BareSingle);
    assert_eq!(classify_site(&None, 2), HeuristicClass::BareMulti);
    assert_eq!(classify_site(&Some("this".into()), 1), HeuristicClass::ThisMethod);
    assert_eq!(classify_site(&Some("x".into()), 1), HeuristicClass::UnknownReceiver);
    assert_eq!(call_confidence(HeuristicClass::BareSingle), (Provenance::Inferred, CONF_BARE_SINGLE));
    assert_eq!(call_confidence(HeuristicClass::BareMulti), (Provenance::Ambiguous, CONF_BARE_MULTI));
    assert_eq!(call_confidence(HeuristicClass::ThisMethod), (Provenance::Inferred, CONF_THIS_METHOD));
    assert_eq!(
        (CONF_BARE_SINGLE, CONF_BARE_MULTI, CONF_THIS_METHOD, CONF_UNKNOWN_RECEIVER),
        (800_000_000, 350_000_000, 800_000_000, 390_000_000)
    );
}

#[test]
fn an_external_import_becomes_a_package() {
    let mut a = AnalyzedFile::default();
    a.imports = vec![ImportRef {
        specifier: "lodash".into(),
        imported_names: vec![],
        resolution: ImportResolution::External("lodash".into()),
    }];
    let g = assemble_graph(&vec![entry("src/a.ts", a)], "app");
    let package = g.nodes.iter().find(|n| n.kind == NodeKind::Package).unwrap();
    assert_eq!(package.name, "lodash");
    assert_eq!(edges(&g, EdgeKind::Imports).len(), 1);
}

#[test]
fn no_two_nodes_share_an_identifier() {
    let mut twice = two_modules();
    twice.extend(two_modules());
    let g = assemble_graph(&twice, "app");
    let mut uids: Vec<&Uid> = g.nodes.iter().map(|n| &n.uid).collect();
    let n = uids.len();
    uids.sort();
    uids.dedup();
    assert_eq!(uids.len(), n);
}

#[test]
fn paths_and_attempts_are_read_off_calls() {
    assert_eq!(last_path_segment("a::b::c"), "c");
    assert_eq!(last_path_segment("c"), "c");
    assert_eq!(attempted_band_provenance(&call("f", None, "", 1, 0)), Provenance::Inferred);
}

#[test]
fn an_imported_name_is_a_site() {
    let import = |resolution| ImportRef {
        specifier: "./b".into(),
        imported_names: vec!["foo".into(), "bar".into()],
        resolution,
    };
    let counts = |resolution| {
        let mut a = AnalyzedFile::default();
        a.imports = vec![import(resolution)];
        let (_, cov) = assemble_with_coverage(&vec![entry("src/a.ts", a)], "app", None, &vec![]);
        (cov.sites_total, cov.sites_resolved, cov.sites_heuristic, cov.sites_ambiguous)
    };
    assert_eq!(counts(ImportResolution::Resolved("src/b.ts".into())), (2, 0, 2, 0));
    assert_eq!(counts(ImportResolution::External("lib".into())), (2, 0, 2, 0));
    assert_eq!(counts(ImportResolution::Unresolved), (2, 0, 0, 0));
}
