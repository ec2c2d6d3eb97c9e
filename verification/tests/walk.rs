use strata_index::contract::{ContractFormat, OperationDef};
use strata_index::data::{SchemaModel, TableDef};
use strata_index::infra::{InfraTemplate, TerragruntUnit};
use strata_index::readings::{
    cap_diagnostics, extract_repo_operations, extract_repo_schemas, extract_repo_templates, extract_repo_terragrunt,
    is_terragrunt_file, CfnReading, SchemaReading, SpecReading, TemplateReading, TerraformReading, UnitReading,
    MAX_INFRA_DIAGNOSTICS,
};
use strata_index::walk::{
    extensions, has_supported_extension, is_dist_info_dir, keep_entry, recorded_files, relative_key, repo_name_of,
    scan_entry, skip_dirs, uses_exclude_list, DirItem, SourceSet,
};

fn dir(name: &str) -> DirItem {
    DirItem { name: Some(name.into()), is_dir: true }
}

fn plain(name: &str) -> DirItem {
    DirItem { name: Some(name.into()), is_dir: false }
}

#[test]
fn directories_of_others_are_not_entered() {
    assert!(!keep_entry(SourceSet::Python, &dir("venv"), false));
    assert!(keep_entry(SourceSet::TypeScript, &dir("venv"), false));
    assert!(!keep_entry(SourceSet::Rust, &dir("target"), false));
    assert!(!keep_entry(SourceSet::CSharp, &dir("obj"), false));
    assert!(!keep_entry(SourceSet::Terraform, &dir(".terraform"), false));
    assert!(!keep_entry(SourceSet::Sql, &dir("node_modules"), false));
    assert!(keep_entry(SourceSet::Python, &plain("venv"), false));
    assert!(!keep_entry(SourceSet::TypeScript, &dir("six-1.16.dist-info"), false));
    assert!(keep_entry(SourceSet::TypeScript, &plain("six-1.16.dist-info"), false));
}

#[test]
fn installed_files_are_pruned_and_others_beside_them_survive() {
    for set in [SourceSet::TypeScript, SourceSet::Python, SourceSet::OpenApi] {
        assert!(!keep_entry(set, &plain("six.py"), true));
        assert!(keep_entry(set, &plain("own.py"), false));
    }
    assert!(is_dist_info_dir(&dir("a.dist-info")));
    assert!(!is_dist_info_dir(&DirItem { name: None, is_dir: true }));
}

#[test]
fn the_scan_for_packages_passes_over_build_output() {
    assert!(!scan_entry(&dir(".git")));
    assert!(!scan_entry(&dir("site-packages")));
    assert!(!scan_entry(&dir("target")));
    assert!(scan_entry(&dir("lambda")));
    assert!(scan_entry(&plain("target")));
}

#[test]
fn extensions_are_compared_as_they_are_written() {
    assert!(has_supported_extension("a.ts", SourceSet::TypeScript));
    assert!(has_supported_extension("a.d.ts", SourceSet::TypeScript));
    assert!(!has_supported_extension("a.TS", SourceSet::TypeScript));
    assert!(!has_supported_extension(".ts", SourceSet::TypeScript));
    assert!(!has_supported_extension("ts", SourceSet::TypeScript));
    assert!(!has_supported_extension("..", SourceSet::TypeScript));
    assert!(has_supported_extension("x.template", SourceSet::Templates));
    assert!(extensions(SourceSet::Graphql).contains(&"gql"));
    assert!(skip_dirs(SourceSet::Graphql).is_empty());
    assert!(uses_exclude_list(SourceSet::Python) && !uses_exclude_list(SourceSet::Proto));
}

#[test]
fn keys_are_joined_with_slashes() {
    assert_eq!(relative_key(&vec!["src".into(), "a.ts".into()]), Some("src/a.ts".to_string()));
    assert_eq!(relative_key(&vec![]), None);
    assert_eq!(repo_name_of(Some("myrepo".into())), "myrepo");
    assert_eq!(repo_name_of(None), "repo");
}

#[test]
fn a_record_names_the_files_of_its_package() {
    let record = "six.py,sha256=abc,34549\nsix-1.16.dist-info/RECORD,,\n../bin/tool,sha,1\n/abs/path,x,1\n\n  pad.py ,x,1\n";
    assert_eq!(recorded_files(record), vec!["six.py", "six-1.16.dist-info/RECORD", "pad.py"]);
}

fn op(key: &str) -> OperationDef {
    OperationDef {
        format: ContractFormat::OpenApi,
        method: "GET".into(),
        path: key.into(),
        norm_path: key.into(),
        operation_id: None,
        key: key.into(),
        spec_path: "s".into(),
    }
}

#[test]
fn operations_come_in_a_fixed_order_and_bad_specs_are_skipped() {
    let found = extract_repo_operations(
        vec![SpecReading::Operations(vec![op("a"), op("b")]), SpecReading::Malformed, SpecReading::Other],
        vec![SpecReading::Operations(vec![op("c")])],
        vec![SpecReading::Malformed, SpecReading::Operations(vec![op("d")])],
    );
    let keys: Vec<&str> = found.iter().map(|o| o.key.as_str()).collect();
    assert_eq!(keys, vec!["a", "b", "c", "d"]);
}

fn t(path: &str) -> InfraTemplate {
    InfraTemplate { path: path.into(), resources: vec![] }
}

fn reading(path: &str, contract: bool, plan: Option<Result<InfraTemplate, String>>, cfn: CfnReading) -> TemplateReading {
    TemplateReading { path: path.into(), contract, plan, cfn }
}

#[test]
fn templates_are_sorted_and_failures_are_reported() {
    let set = extract_repo_templates(
        vec![
            reading("api.yaml", true, None, CfnReading::Template(Ok(t("api.yaml")))),
            reading("plan.json", false, Some(Ok(t("plan.json"))), CfnReading::NotCfn),
            reading("badplan.json", false, Some(Err("no".into())), CfnReading::NotCfn),
            reading("cfn.yaml", false, None, CfnReading::Template(Ok(t("cfn.yaml")))),
            reading("odd.yaml", false, None, CfnReading::Template(Err("odd".into()))),
            reading("bad.yaml", false, None, CfnReading::Malformed("eof".into())),
            reading("values.yaml", false, None, CfnReading::NotCfn),
        ],
        vec![
            TerraformReading { path: "main.tf".into(), template: Some(Ok(t("main.tf"))) },
            TerraformReading { path: "vars.tf".into(), template: None },
            TerraformReading { path: "bad.tf".into(), template: Some(Err("brace".into())) },
        ],
    );
    assert_eq!(set.cloudformation, vec![t("cfn.yaml")]);
    assert_eq!(set.plans, vec![t("plan.json")]);
    assert_eq!(set.terraform, vec![t("main.tf")]);
    assert_eq!(
        set.diagnostics,
        vec!["badplan.json: no", "odd.yaml: odd", "bad.yaml: parse error: eof", "bad.tf: brace"]
    );
}

#[test]
fn units_are_told_by_name() {
    assert!(is_terragrunt_file("live/app/terragrunt.hcl"));
    assert!(is_terragrunt_file("terragrunt.hcl"));
    assert!(!is_terragrunt_file("live/common.hcl"));
    let unit = |p: &str| TerragruntUnit { path: p.into(), dependencies: vec![] };
    let set = extract_repo_terragrunt(vec![
        UnitReading { path: "common.hcl".into(), unit: Err("ignored".into()) },
        UnitReading { path: "a/terragrunt.hcl".into(), unit: Ok(unit("a/terragrunt.hcl")) },
        UnitReading { path: "b/terragrunt.hcl".into(), unit: Err("brace".into()) },
    ]);
    assert_eq!(set.units, vec![unit("a/terragrunt.hcl")]);
    assert_eq!(set.diagnostics, vec!["b/terragrunt.hcl: brace"]);
}

#[test]
fn only_what_looks_like_a_schema_is_reported() {
    let model = |tables: Vec<TableDef>| SchemaModel { path: "s.sql".into(), tables, skipped_statements: 0 };
    let table = TableDef { name: "t".into(), columns: vec![], foreign_keys: vec![] };
    let set = extract_repo_schemas(vec![
        SchemaReading { path: "s.sql".into(), schema: Ok(model(vec![table])), looks_like_ddl: true },
        SchemaReading { path: "query.sql".into(), schema: Ok(model(vec![])), looks_like_ddl: false },
        SchemaReading { path: "prose.sql".into(), schema: Err("x".into()), looks_like_ddl: false },
        SchemaReading { path: "bad.sql".into(), schema: Err("eof".into()), looks_like_ddl: true },
    ]);
    assert_eq!(set.schemas.len(), 1);
    assert_eq!(set.diagnostics, vec!["bad.sql: parse error: eof"]);
}

#[test]
fn diagnostics_are_capped() {
    let lines = |n: usize| (0..n).map(|i| format!("line {i}")).collect::<Vec<String>>();
    assert_eq!(cap_diagnostics(lines(MAX_INFRA_DIAGNOSTICS)), lines(20));
    let capped = cap_diagnostics(lines(23));
    assert_eq!(capped.len(), 21);
    assert_eq!(capped[..20], lines(20)[..]);
    assert_eq!(capped[20], "… and 3 more infra template failure(s)");
}
