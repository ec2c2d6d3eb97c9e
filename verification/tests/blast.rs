use strata_index::blast::{
    aggregate_impact, blast_for_file, blast_for_file_in_repo, classify_risk, detect_changes, file_as_modified,
    impact_roots, kind_name, node_in_file, path_matches, plane_for_kind, uid_package, will_break_label, AffectedNode,
    ImpactEntry, ImpactHit, RiskLevel,
};
use strata_index::changes::{ChangeKind, ChangeScope, ChangedSymbol, FileChange, FileDiff, Plane};
use strata_index::model::{Confidence, Edge, EdgeKind, Graph, Node, NodeKind, Provenance, Span, Uid};

const NINE_TENTHS: u32 = 900_000_000;

fn affected_n(n: usize) -> Vec<AffectedNode> {
    (0..n)
        .map(|i| AffectedNode {
            uid: format!("ts|app|f{i}.ts|x|()"),
            name: format!("x{i}"),
            kind: "Function".into(),
            path: format!("f{i}.ts"),
            depth: 1,
            confidence: NINE_TENTHS,
            ambiguous: false,
            will_break: true,
        })
        .collect()
}

fn blast_node(uid: &str, name: &str, path: &str, kind: NodeKind) -> Node {
    Node {
        uid: Uid(uid.into()),
        kind,
        name: name.into(),
        fqn: name.into(),
        path: path.into(),
        span: Span::default(),
        provenance: Provenance::Extracted,
        confidence: Confidence::new(1_000_000_000),
    }
}

fn blast_edge(src: &str, dst: &str, kind: EdgeKind) -> Edge {
    Edge {
        src: Uid(src.into()),
        dst: Uid(dst.into()),
        kind,
        provenance: Provenance::Inferred,
        confidence: Confidence::new(NINE_TENTHS),
    }
}

fn hit(uid: &str, depth: usize, confidence: u32, ambiguous: bool) -> ImpactHit {
    ImpactHit { uid: Uid(uid.into()), depth, confidence, ambiguous }
}

fn entry(uid: &str, affected: Vec<ImpactHit>) -> ImpactEntry {
    ImpactEntry { uid: Uid(uid.into()), affected }
}

#[test]
fn risk_bands_match_steering_rubric() {
    let g = Graph::new();
    let none: Vec<ChangedSymbol> = Vec::new();
    assert_eq!(classify_risk(&g, &none, &affected_n(4), None).level, RiskLevel::Low);
    assert_eq!(classify_risk(&g, &none, &affected_n(5), None).level, RiskLevel::Medium);
    assert_eq!(classify_risk(&g, &none, &affected_n(15), None).level, RiskLevel::Medium);
    assert_eq!(classify_risk(&g, &none, &affected_n(16), None).level, RiskLevel::High);
}

#[test]
fn risk_critical_when_changed_symbol_is_contract_surface() {
    let g = Graph::new();
    let symbols = vec![ChangedSymbol::new(
        Plane::Contract,
        ChangeKind::Removed,
        "Query.getPolicyStats".into(),
        "schema.graphql".into(),
    )];
    let risk = classify_risk(&g, &symbols, &Vec::new(), None);
    assert_eq!(risk.level, RiskLevel::Critical);
    assert!(
        risk.reasons.iter().any(|r| r.contains("contract surface") && r.contains("getPolicyStats")),
        "the reason must name the contract surface; got {:?}",
        risk.reasons
    );
}

#[test]
fn risk_critical_when_affected_is_contract_surface() {
    let g = Graph::new();
    let affected = vec![AffectedNode {
        uid: "gql|app|schema.graphql|Query.getX|()".into(),
        name: "Query.getX".into(),
        kind: "GraphqlField".into(),
        path: "schema.graphql".into(),
        depth: 1,
        confidence: 950_000_000,
        ambiguous: false,
        will_break: true,
    }];
    let risk = classify_risk(&g, &Vec::new(), &affected, None);
    assert_eq!(risk.level, RiskLevel::Critical);
}

#[test]
fn aggregate_impact_stamps_will_break_from_aggregated_values() {
    let mut g = Graph::new();
    g.add_node(blast_node("changed", "changed", "a.ts", NodeKind::Function));
    g.add_node(blast_node("hi", "hi", "b.ts", NodeKind::Function));
    g.add_node(blast_node("amb", "amb", "c.ts", NodeKind::Function));
    g.add_edge(blast_edge("hi", "changed", EdgeKind::Calls));
    g.add_edge(Edge { provenance: Provenance::Ambiguous, ..blast_edge("amb", "changed", EdgeKind::Calls) });

    let symbols =
        vec![ChangedSymbol::new(Plane::Code, ChangeKind::Modified, "changed".into(), "a.ts".into())];
    let table =
        vec![entry("changed", vec![hit("hi", 1, NINE_TENTHS, false), hit("amb", 1, NINE_TENTHS, true)])];

    let affected = aggregate_impact(&g, &symbols, &table);
    let get = |id: &str| affected.iter().find(|a| a.uid == id).unwrap();
    assert!(get("hi").will_break, "a clean 0.9 dependent is labelled will-break");
    assert!(!get("amb").will_break, "an ambiguous dependent is may-affect (re-derived post-aggregation)");
}

#[test]
fn blast_for_file_reports_dependents_of_a_files_symbols() {
    let mut g = Graph::new();
    g.add_node(blast_node("a|target", "target", "a.ts", NodeKind::Function));
    g.add_node(blast_node("b|caller", "caller", "b.ts", NodeKind::Function));
    g.add_edge(blast_edge("b|caller", "a|target", EdgeKind::Calls));
    let table = vec![entry("a|target", vec![hit("b|caller", 1, NINE_TENTHS, false)])];

    let report = blast_for_file(&g, "a.ts", &table);
    assert_eq!(report.file, "a.ts");
    assert!(
        report.symbols.iter().any(|s| s.fqn == "target"),
        "blast must list the file's symbol target; got {:?}",
        report.symbols
    );
    assert!(
        report.affected.iter().any(|a| a.name == "caller"),
        "blast(a.ts) must surface caller as affected; got {:?}",
        report.affected
    );
    assert!(report.note.is_none(), "an indexed file has no empty-note");
}

#[test]
fn blast_for_file_excludes_empty_path_repo_nodes() {
    let mut g = Graph::new();
    g.add_node(blast_node("ts|repo||repo", "myrepo", "", NodeKind::Repo));
    g.add_node(blast_node("ts|repo|src/a.ts|<module>|", "a.ts", "src/a.ts", NodeKind::Module));
    g.add_node(blast_node("ts|repo|src/a.ts|target|", "target", "src/a.ts", NodeKind::Function));

    let report = blast_for_file(&g, "src/a.ts", &Vec::new());
    let kinds: Vec<&str> = report.symbols.iter().map(|s| s.kind.as_str()).collect();
    assert!(
        !kinds.contains(&"Repo"),
        "the empty-path Repo node must NOT appear in a file's blast; got {:?}",
        report.symbols
    );
    assert!(
        report.symbols.iter().any(|s| s.fqn == "target"),
        "the file's real symbol must still be listed; got {:?}",
        report.symbols
    );
}

#[test]
fn blast_for_file_path_match_is_component_boundary_not_bare_suffix() {
    let mut g = Graph::new();
    g.add_node(blast_node("ts|r|src/schema_a.ts|x|", "x", "src/schema_a.ts", NodeKind::Function));
    let report = blast_for_file(&g, "a.ts", &Vec::new());
    assert!(
        report.symbols.is_empty(),
        "a.ts must not match schema_a.ts (component-boundary); got {:?}",
        report.symbols
    );
    let report2 = blast_for_file(&g, "/repo/src/schema_a.ts", &Vec::new());
    assert!(
        report2.symbols.iter().any(|s| s.fqn == "x"),
        "an absolute path must match its repo-relative node at a boundary; got {:?}",
        report2.symbols
    );
}

#[test]
fn blast_for_file_with_no_symbols_is_an_honest_empty_report() {
    let mut g = Graph::new();
    g.add_node(blast_node("x|f", "f", "other.ts", NodeKind::Function));

    let report = blast_for_file(&g, "brand/new.ts", &Vec::new());
    assert!(report.symbols.is_empty(), "no symbols for an unindexed file");
    assert!(report.affected.is_empty(), "and nothing aggregated");
    assert_eq!(report.risk.level, RiskLevel::Low);
    assert!(
        report.risk.reasons.iter().any(|r| r.contains("no indexed symbols")),
        "the risk reason must say there are no indexed symbols; got {:?}",
        report.risk.reasons
    );
    let note = report.note.expect("empty report must carry an honest note");
    assert!(note.contains("not a guarantee"), "the note must not read as a fake all-clear; got {note:?}");
}

#[test]
fn blast_for_file_on_contract_surface_is_critical() {
    let mut g = Graph::new();
    g.add_node(blast_node("gql|field", "Query.getPolicyStats", "schema.graphql", NodeKind::GraphqlField));

    let report = blast_for_file(&g, "schema.graphql", &Vec::new());
    assert_eq!(
        report.risk.level,
        RiskLevel::Critical,
        "editing contract surface is CRITICAL; got {:?}",
        report.risk
    );
    assert!(
        report.risk.reasons.iter().any(|r| r.contains("contract surface") && r.contains("getPolicyStats")),
        "the reason must name the contract surface; got {:?}",
        report.risk.reasons
    );
}

#[test]
fn blast_scopes_to_repo_when_paths_collide() {
    let mut g = Graph::new();
    g.add_node(blast_node(
        Uid::new("ts", "repo-a", "src/x.ts", "fa", "").as_str(),
        "fa",
        "src/x.ts",
        NodeKind::Function,
    ));
    g.add_node(blast_node(
        Uid::new("ts", "repo-b", "src/x.ts", "fb", "").as_str(),
        "fb",
        "src/x.ts",
        NodeKind::Function,
    ));

    let all = blast_for_file_in_repo(&g, "src/x.ts", None, &Vec::new());
    assert_eq!(all.symbols.len(), 2, "unscoped sees both repos' symbols");

    let scoped = blast_for_file_in_repo(&g, "src/x.ts", Some("repo-a"), &Vec::new());
    assert_eq!(scoped.symbols.len(), 1);
    assert_eq!(scoped.symbols[0].name, "fa");
}

#[test]
fn blast_for_file_matches_detect_changes_aggregation_for_the_same_symbols() {
    let mut g = Graph::new();
    g.add_node(blast_node("a|one", "one", "a.ts", NodeKind::Function));
    g.add_node(blast_node("a|two", "two", "a.ts", NodeKind::Function));
    g.add_node(blast_node("b|mid", "mid", "b.ts", NodeKind::Function));
    g.add_node(blast_node("c|far", "far", "c.ts", NodeKind::Function));
    g.add_edge(blast_edge("b|mid", "a|one", EdgeKind::Calls));
    g.add_edge(blast_edge("c|far", "b|mid", EdgeKind::Calls));
    g.add_edge(blast_edge("c|far", "a|two", EdgeKind::Calls));
    let table = vec![
        entry("a|one", vec![hit("b|mid", 1, NINE_TENTHS, false), hit("c|far", 2, 810_000_000, false)]),
        entry("a|two", vec![hit("c|far", 1, NINE_TENTHS, false)]),
    ];

    let ref_symbols = vec![
        ChangedSymbol::new(Plane::Code, ChangeKind::Modified, "one".into(), "a.ts".into()),
        ChangedSymbol::new(Plane::Code, ChangeKind::Modified, "two".into(), "a.ts".into()),
    ];
    let ref_affected = aggregate_impact(&g, &ref_symbols, &table);
    let ref_risk = classify_risk(&g, &ref_symbols, &ref_affected, None);

    let report = blast_for_file(&g, "a.ts", &table);
    assert_eq!(
        report.affected, ref_affected,
        "blast affected set must equal the detect_changes aggregation for the file's symbols"
    );
    assert_eq!(
        report.risk, ref_risk,
        "blast risk must equal the detect_changes risk for the same symbols"
    );
    let names: Vec<&str> = report.affected.iter().map(|a| a.name.as_str()).collect();
    assert!(names.contains(&"mid") && names.contains(&"far"), "got {names:?}");
    // The least depth and the best confidence win.
    let far = report.affected.iter().find(|a| a.name == "far").unwrap();
    assert_eq!((far.depth, far.confidence), (1, NINE_TENTHS));
}

#[test]
fn a_reach_breaks_when_it_is_clean_and_strong_enough() {
    assert!(will_break_label(400_000_000, false));
    assert!(!will_break_label(399_999_999, false));
    assert!(!will_break_label(1_000_000_000, true));
}

#[test]
fn paths_match_at_component_boundaries() {
    assert!(path_matches("src/a.ts", "src/a.ts"));
    assert!(path_matches("src/a.ts", "/repo/src/a.ts"));
    assert!(node_in_file("src/a.ts", "src/a.ts"));
    assert!(!node_in_file("", "src/a.ts"));
    assert!(!node_in_file("schema_a.ts", "a.ts"));
    assert!(node_in_file("src/a.ts", "/repo/src/a.ts") && node_in_file("/repo/src/a.ts", "src/a.ts"));
    assert!(!node_in_file("src/", "") && !node_in_file("", ""));
}

#[test]
fn packages_and_kinds_are_read_off() {
    assert_eq!(uid_package("ts|app|a.ts|f|()"), Some("app".to_string()));
    assert_eq!(uid_package("nothing"), None);
    assert_eq!(kind_name(NodeKind::GraphqlField), "GraphqlField");
    assert_eq!(plane_for_kind(NodeKind::ApiOperation), Plane::Contract);
    assert_eq!(plane_for_kind(NodeKind::LambdaFn), Plane::Infra);
    assert_eq!(plane_for_kind(NodeKind::Function), Plane::Code);
}

#[test]
fn a_file_counts_as_modified_throughout() {
    let mut g = Graph::new();
    g.add_node(blast_node("ts|r|a.ts|f|", "f", "a.ts", NodeKind::Function));
    let symbols = file_as_modified(&g, "a.ts", None);
    assert_eq!(symbols.len(), 1);
    assert_eq!(symbols[0].change, ChangeKind::Modified);
    assert_eq!(impact_roots(&g, &symbols, None), vec![Uid("ts|r|a.ts|f|".into())]);
}

#[test]
fn additive_contract_change_is_not_critical() {
    let g = Graph::new();
    let symbols =
        vec![ChangedSymbol::new(Plane::Contract, ChangeKind::Added, "Query.new".into(), "s.graphql".into())];
    assert_ne!(classify_risk(&g, &symbols, &Vec::new(), None).level, RiskLevel::Critical);
}

#[test]
fn changes_are_reported_with_their_scope() {
    let g = Graph::new();
    let diffs = vec![FileDiff { change: FileChange::Added { path: "notes.txt".into() }, old: None, new: None }];
    let report = detect_changes(&g, &diffs, ChangeScope::Staged, &Vec::new());
    assert_eq!(report.scope, "staged");
    assert_eq!(report.files, vec![FileChange::Added { path: "notes.txt".into() }]);
    assert_eq!(report.other_files, vec!["notes.txt".to_string()]);
    assert!(report.symbols.is_empty() && report.affected.is_empty());
    assert_eq!(report.risk.level, RiskLevel::Low);
}
