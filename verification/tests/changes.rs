use strata_index::analysis::RawSymbol;
use strata_index::changes::{
    changed_symbols, code_symbol_bodies, contract_op_sigs, diff_args, diff_code_symbols, diff_contract_symbols,
    diff_infra_symbols, diff_symbol_maps, parse_name_status, plane_for_path, revision_sources, slice_span, ChangeKind,
    ChangeScope, ChangedSymbol, ChangesError, ContractChange, FileChange, FileDiff, Plane, Revision, RevisionSource,
};
use strata_index::contract::{ContractFormat, OperationDef};
use strata_index::model::{NodeKind, Span};
use strata_index::ordmap::OrdMap;

fn span(start_line: u32, end_line: u32) -> Span {
    Span { start_line, start_col: 0, end_line, end_col: 0 }
}

fn function(name: &str, start_line: u32, end_line: u32) -> RawSymbol {
    RawSymbol {
        kind: NodeKind::Function,
        name: name.to_string(),
        fqn: name.to_string(),
        container_fqn: None,
        span: span(start_line, end_line),
    }
}

fn code(content: &str, symbols: Vec<RawSymbol>) -> Revision {
    Revision { content: content.to_string(), symbols, operations: Vec::new(), resources: OrdMap::new() }
}

fn field(key: &str) -> OperationDef {
    let name = key.split('.').last().unwrap().to_string();
    OperationDef {
        format: ContractFormat::Graphql,
        method: "Query".to_string(),
        path: name.clone(),
        norm_path: name,
        operation_id: None,
        key: key.to_string(),
        spec_path: "schema.graphql".to_string(),
    }
}

fn contract(content: &str, keys: &[&str]) -> Revision {
    Revision {
        content: content.to_string(),
        symbols: Vec::new(),
        operations: keys.iter().map(|k| field(k)).collect(),
        resources: OrdMap::new(),
    }
}

/// The resources of a template, each with its whole sub-tree.
fn template(content: &str) -> Revision {
    let tree: serde_json::Value = serde_json::from_str(content).unwrap();
    let mut resources = OrdMap::new();
    for (id, body) in tree["Resources"].as_object().unwrap() {
        resources.insert(id.clone(), body.to_string());
    }
    Revision { content: content.to_string(), symbols: Vec::new(), operations: Vec::new(), resources }
}

#[test]
fn parse_name_status_handles_a_m_d_and_rename() {
    let out = "A\tsrc/new.ts\nM\tsrc/mod.ts\nD\tsrc/gone.ts\nR096\tsrc/old.ts\tsrc/renamed.ts\n";
    let changes = parse_name_status(out);
    assert_eq!(
        changes,
        vec![
            FileChange::Added { path: "src/new.ts".into() },
            FileChange::Modified { path: "src/mod.ts".into() },
            FileChange::Deleted { path: "src/gone.ts".into() },
            FileChange::Renamed { old_path: "src/old.ts".into(), path: "src/renamed.ts".into() },
        ]
    );
}

#[test]
fn parse_name_status_passes_over_what_it_does_not_know() {
    assert_eq!(parse_name_status(""), vec![]);
    assert_eq!(parse_name_status("\n\nno-tab-here\n"), vec![]);
    let only: Vec<String> = parse_name_status("M\ta.ts\n\nM\tb.ts\n")
        .iter()
        .map(|c| c.current_path().to_string())
        .collect();
    assert_eq!(only, vec!["a.ts", "b.ts"]);
}

#[test]
fn plane_for_path_routes_extensions() {
    assert_eq!(plane_for_path("src/a.ts"), Some(Plane::Code));
    assert_eq!(plane_for_path("svc/handler.py"), Some(Plane::Code));
    assert_eq!(plane_for_path("Svc/Handler.cs"), Some(Plane::Code));
    assert_eq!(plane_for_path("schema.graphql"), Some(Plane::Contract));
    assert_eq!(plane_for_path("openapi.yaml"), Some(Plane::Contract));
    assert_eq!(plane_for_path("README.md"), None);
    assert_eq!(plane_for_path("package.json"), Some(Plane::Contract));
}

#[test]
fn diff_code_detects_added_removed_modified() {
    let old = code(
        "export function keep() { return 1; }\nexport function gone() { return 2; }\n",
        vec![function("keep", 1, 1), function("gone", 2, 2)],
    );
    let new = code(
        "export function keep() { return 99; }\nexport function fresh() { return 3; }\n",
        vec![function("keep", 1, 1), function("fresh", 2, 2)],
    );
    let mut syms = diff_code_symbols("src/a.ts", Some(&old), Some(&new));
    syms.sort_by(|a, b| a.key.cmp(&b.key));

    let find = |k: &str| syms.iter().find(|s| s.key == k).cloned();
    assert_eq!(find("fresh").unwrap().change, ChangeKind::Added);
    assert_eq!(find("gone").unwrap().change, ChangeKind::Removed);
    assert_eq!(find("keep").unwrap().change, ChangeKind::Modified);
    for s in &syms {
        assert_eq!(s.plane, Plane::Code);
        assert_eq!(s.file, "src/a.ts");
    }
}

#[test]
fn diff_code_body_move_is_not_a_modification() {
    let old = code("export function target() {\n  return 1;\n}\n", vec![function("target", 1, 3)]);
    let new = code("\nexport function target() {\n  return 1;\n}\n", vec![function("target", 2, 4)]);
    let syms = diff_code_symbols("src/a.ts", Some(&old), Some(&new));
    assert!(syms.is_empty(), "a moved-but-identical body must not be a modification, got {syms:?}");
}

#[test]
fn diff_code_added_file_has_no_old() {
    let new = code("export function brandNew() {}\n", vec![function("brandNew", 1, 1)]);
    let syms = diff_code_symbols("src/a.ts", None, Some(&new));
    assert_eq!(syms.len(), 1);
    assert_eq!(syms[0].change, ChangeKind::Added);
    assert_eq!(syms[0].key, "brandNew");
}

#[test]
fn diff_contract_detects_removed_graphql_field() {
    let old = contract(
        "type Query {\n  getUser: User\n  getOrder: Order\n}\n",
        &["Query.getUser", "Query.getOrder"],
    );
    let new = contract("type Query {\n  getUser: User\n}\n", &["Query.getUser"]);
    let syms = diff_contract_symbols("schema.graphql", Some(&old), Some(&new));
    let removed: Vec<&str> =
        syms.iter().filter(|s| s.change == ChangeKind::Removed).map(|s| s.key.as_str()).collect();
    assert!(
        removed.iter().any(|k| k.contains("getOrder")),
        "getOrder field must be detected removed; got {syms:?}"
    );
    assert!(syms.iter().all(|s| s.plane == Plane::Contract));
}

#[test]
fn diff_infra_detects_added_resource() {
    let old = template(
        r#"{
  "Resources": {
    "Fn1": { "Type": "AWS::Serverless::Function", "Properties": { "Handler": "a.h" } }
  }
}"#,
    );
    let new = template(
        r#"{
  "Resources": {
    "Fn1": { "Type": "AWS::Serverless::Function", "Properties": { "Handler": "a.h" } },
    "Fn2": { "Type": "AWS::Serverless::Function", "Properties": { "Handler": "b.h" } }
  }
}"#,
    );
    let syms = diff_infra_symbols("template.json", Some(&old), Some(&new));
    let added: Vec<&str> =
        syms.iter().filter(|s| s.change == ChangeKind::Added).map(|s| s.key.as_str()).collect();
    assert_eq!(added, vec!["Fn2"], "Fn2 added; got {syms:?}");
    assert!(syms.iter().all(|s| s.plane == Plane::Infra));
}

#[test]
fn diff_infra_detects_untyped_property_change() {
    let old = template(
        r#"{
  "Resources": {
    "Fn1": { "Type": "AWS::Serverless::Function",
             "Properties": { "Handler": "a.h", "Timeout": 10 } }
  }
}"#,
    );
    let new = template(
        r#"{
  "Resources": {
    "Fn1": { "Type": "AWS::Serverless::Function",
             "Properties": { "Handler": "a.h", "Timeout": 30 } }
  }
}"#,
    );
    let syms = diff_infra_symbols("template.json", Some(&old), Some(&new));
    assert_eq!(syms.len(), 1, "exactly Fn1 modified; got {syms:?}");
    assert_eq!(syms[0].key, "Fn1");
    assert_eq!(syms[0].change, ChangeKind::Modified);
    assert_eq!(syms[0].plane, Plane::Infra);
}

#[test]
fn a_contract_change_breaks_unless_it_adds() {
    assert_eq!(
        ContractChange::classify(Plane::Contract, ChangeKind::Removed),
        Some(ContractChange::Breaking)
    );
    assert_eq!(
        ContractChange::classify(Plane::Contract, ChangeKind::Modified),
        Some(ContractChange::Breaking)
    );
    assert_eq!(
        ContractChange::classify(Plane::Contract, ChangeKind::Added),
        Some(ContractChange::Additive)
    );
    assert_eq!(ContractChange::classify(Plane::Code, ChangeKind::Removed), None);
    assert_eq!(ContractChange::classify(Plane::Infra, ChangeKind::Added), None);
    let s = ChangedSymbol::new(Plane::Contract, ChangeKind::Removed, "Query.x".into(), "s.graphql".into());
    assert_eq!(s.contract_change, Some(ContractChange::Breaking));
}

#[test]
fn scopes_have_names_and_arguments() {
    assert_eq!(ChangeScope::Working.as_str(), "working");
    assert_eq!(ChangeScope::Staged.as_str(), "staged");
    let working = diff_args(ChangeScope::Working);
    let staged = diff_args(ChangeScope::Staged);
    assert!(!working.contains(&"--cached".to_string()));
    assert!(staged.contains(&"--cached".to_string()));
    assert!(working.contains(&"--name-status".to_string()));
}

#[test]
fn revisions_come_from_where_the_change_left_them() {
    let added = FileChange::Added { path: "a.ts".into() };
    assert_eq!(
        revision_sources(&added, ChangeScope::Working),
        (None, Some(RevisionSource::WorkingFile("a.ts".into())))
    );
    let deleted = FileChange::Deleted { path: "a.ts".into() };
    let (old, new) = revision_sources(&deleted, ChangeScope::Working);
    assert_eq!(old, Some(RevisionSource::Blob("HEAD:a.ts".into())));
    assert_eq!(new, None);
    let renamed = FileChange::Renamed { old_path: "o.ts".into(), path: "n.ts".into() };
    assert_eq!(
        revision_sources(&renamed, ChangeScope::Staged),
        (Some(RevisionSource::Blob("HEAD:o.ts".into())), Some(RevisionSource::Blob(":n.ts".into())))
    );
}

#[test]
fn a_span_is_cut_by_lines() {
    let lines: Vec<String> = vec!["one".into(), "two".into(), "three".into()];
    assert_eq!(slice_span(&lines, 1, 2), "one\ntwo");
    assert_eq!(slice_span(&lines, 3, 3), "three");
    assert_eq!(slice_span(&lines, 2, 9), "two\nthree");
}

#[test]
fn bodies_and_signatures_are_kept_by_name() {
    let bodies = code_symbol_bodies(&vec![function("f", 2, 2)], "x\nfn f() {}\n");
    assert_eq!(bodies.get("f"), Some(&"fn f() {}".to_string()));
    let sigs = contract_op_sigs(&vec![field("Query.a"), field("Query.b")]);
    assert_eq!(sigs.len(), 2);
    assert!(sigs.contains("Query.a"));
}

#[test]
fn a_diff_of_maps_is_exact() {
    let mut old = OrdMap::new();
    old.insert("same".to_string(), "1".to_string());
    old.insert("gone".to_string(), "1".to_string());
    old.insert("moved".to_string(), "1".to_string());
    let mut new = OrdMap::new();
    new.insert("same".to_string(), "1".to_string());
    new.insert("moved".to_string(), "2".to_string());
    new.insert("fresh".to_string(), "1".to_string());
    let mut got: Vec<(String, ChangeKind)> =
        diff_symbol_maps(Plane::Code, "f", &old, &new).into_iter().map(|s| (s.key, s.change)).collect();
    got.sort_by(|a, b| a.0.cmp(&b.0));
    assert_eq!(
        got,
        vec![
            ("fresh".to_string(), ChangeKind::Added),
            ("gone".to_string(), ChangeKind::Removed),
            ("moved".to_string(), ChangeKind::Modified),
        ]
    );
}

#[test]
fn changed_files_of_no_plane_are_listed() {
    let diffs = vec![
        FileDiff { change: FileChange::Modified { path: "README.md".into() }, old: None, new: None },
        FileDiff {
            change: FileChange::Added { path: "src/a.ts".into() },
            old: None,
            new: Some(code("function f() {}\n", vec![function("f", 1, 1)])),
        },
    ];
    let (symbols, others) = changed_symbols(&diffs);
    assert_eq!(symbols.len(), 1);
    assert_eq!(symbols[0].key, "f");
    assert_eq!(others, vec!["README.md".to_string()]);
}

#[test]
fn change_errors_say_what_is_wrong() {
    assert_eq!(
        ChangesError::GitUnavailable("no such file".into()).message(),
        "git is not available: no such file — detect_changes needs the git binary on PATH"
    );
    assert_eq!(
        ChangesError::NotARepo { root: "/r".into(), stderr: "fatal".into() }.message(),
        "not a git repository (or no commits yet) at /r: fatal"
    );
}
