use strata_index::analysis::{AnalyzedFile, FileEntry};
use strata_index::contract::{ContractFormat, OperationDef};
use strata_index::infra::{
    assemble_graph_with_infra, build_infra_plane, build_terragrunt_plane, cloud_action_uid, handler_candidate_paths,
    infra_uid, is_root_type, normalize_dir, resolve_rel_dir, terragrunt_uid, unit_dir, InfraKind, InfraResource,
    InfraTemplate, RefValue, TerragruntDependency, TerragruntUnit, CONF_PRODUCES_EXTRACTED, CONF_PRODUCES_INFERRED,
    CONF_REF_INFERRED, CONF_REF_RESOURCE, CONF_RUNS, CONF_TG_DEP,
};
use strata_index::model::{Edge, EdgeKind, Graph, NodeKind, Provenance};

fn resource(id: &str, kind: InfraKind) -> InfraResource {
    InfraResource {
        logical_id: id.into(),
        kind,
        role_refs: vec![],
        granted_actions: vec![],
        grants_opaque: vec![],
        handler: None,
        code_uri: None,
        lambda_ref: None,
        data_source_ref: None,
        api_ref: None,
        parent_type: None,
        field_name: None,
    }
}

fn template(resources: Vec<InfraResource>) -> Vec<InfraTemplate> {
    vec![InfraTemplate { path: "template.yaml".into(), resources }]
}

fn module(path: &str) -> FileEntry {
    FileEntry { path: path.into(), file: AnalyzedFile::default() }
}

fn of(g: &Graph, kind: EdgeKind) -> Vec<&Edge> {
    g.edges.iter().filter(|e| e.kind == kind).collect()
}

#[test]
fn a_function_runs_the_one_module_of_its_handler() {
    let f = InfraResource {
        handler: Some("app.handler".into()),
        code_uri: Some("./src/".into()),
        ..resource("Fn", InfraKind::LambdaFunction)
    };
    let mut g = Graph::new();
    let cov = build_infra_plane(&mut g, "app", &template(vec![f]), &vec![module("src/app.py")]);
    let runs = of(&g, EdgeKind::Runs);
    assert_eq!(runs.len(), 1);
    assert_eq!(runs[0].src, infra_uid("app", "template.yaml", "Fn"));
    assert_eq!(runs[0].dst.as_str(), "py|app|src/app.py|<module>|");
    assert_eq!(runs[0].confidence.billionths, CONF_RUNS);
    assert_eq!((cov.lambdas_runs_linked, cov.lambdas_handler_unresolved), (1, 0));
}

#[test]
fn a_handler_that_several_files_or_none_could_be_is_unresolved() {
    let f = || InfraResource {
        handler: Some("app.handler".into()),
        ..resource("Fn", InfraKind::LambdaFunction)
    };
    let mut g = Graph::new();
    let both = vec![module("app.py"), module("app.ts")];
    assert_eq!(build_infra_plane(&mut g, "app", &template(vec![f()]), &both).lambdas_handler_unresolved, 1);
    let cov = build_infra_plane(&mut g, "app", &template(vec![f()]), &vec![]);
    assert_eq!(cov.lambdas_handler_unresolved, 1);
    assert!(of(&g, EdgeKind::Runs).is_empty());
}

#[test]
fn a_resolver_links_the_function_behind_its_data_source() {
    let op = OperationDef {
        format: ContractFormat::Graphql,
        method: "Query".into(),
        path: "user".into(),
        norm_path: "user".into(),
        operation_id: None,
        key: "Query.user".into(),
        spec_path: "schema.graphql".into(),
    };
    let lambda = |r: RefValue| {
        vec![
            resource("Fn", InfraKind::LambdaFunction),
            InfraResource { lambda_ref: Some(r), ..resource("Ds", InfraKind::AppSyncDataSource) },
            InfraResource {
                data_source_ref: Some(RefValue::Resource("Ds".into())),
                parent_type: Some("Query".into()),
                field_name: Some("user".into()),
                ..resource("Res", InfraKind::AppSyncResolver)
            },
        ]
    };
    let ops = vec![op];
    let sure = template(lambda(RefValue::Resource("Fn".into())));
    let (g, cov) = assemble_graph_with_infra(&vec![], "app", &ops, &vec![], &sure);
    let produced = of(&g, EdgeKind::Produces);
    assert_eq!(produced.len(), 1);
    assert_eq!(produced[0].src, infra_uid("app", "template.yaml", "Fn"));
    assert_eq!(
        (produced[0].provenance, produced[0].confidence.billionths),
        (Provenance::Extracted, CONF_PRODUCES_EXTRACTED)
    );
    assert_eq!((cov.resolvers_total, cov.resolvers_linked, cov.resolvers_unlinked), (1, 1, 0));
    let routes = of(&g, EdgeKind::Routes);
    assert_eq!(routes.len(), 2);
    assert!(routes.iter().all(|e| e.confidence.billionths == CONF_REF_RESOURCE));

    let guessed = template(lambda(RefValue::Inferred("Fn".into())));
    let (g, _) = assemble_graph_with_infra(&vec![], "app", &ops, &vec![], &guessed);
    let produced = of(&g, EdgeKind::Produces);
    assert_eq!(
        (produced[0].provenance, produced[0].confidence.billionths),
        (Provenance::Inferred, CONF_PRODUCES_INFERRED)
    );
    assert!(of(&g, EdgeKind::Routes).iter().any(|e| e.confidence.billionths == CONF_REF_INFERRED));

    let (_, cov) = assemble_graph_with_infra(&vec![], "app", &vec![], &vec![], &sure);
    assert_eq!((cov.resolvers_total, cov.resolvers_unlinked), (1, 1));
}

#[test]
fn a_policy_grants_to_its_roles_and_is_no_node() {
    let policy = |role: &str| InfraResource {
        role_refs: vec![RefValue::Resource(role.into())],
        granted_actions: vec!["s3:GetObject".into(), "s3:GetObject".into()],
        grants_opaque: vec!["wildcard".into()],
        ..resource("Pol", InfraKind::IamPolicy)
    };
    let mut g = Graph::new();
    let cov =
        build_infra_plane(&mut g, "app", &template(vec![resource("Role", InfraKind::IamRole), policy("Role")]), &vec![]);
    let grants = of(&g, EdgeKind::Grants);
    assert_eq!(grants.len(), 2);
    assert_eq!(grants[0].dst, cloud_action_uid("app", "s3:GetObject"));
    assert_eq!(grants[1].dst, cloud_action_uid("app", "<opaque:wildcard>"));
    assert!(!g.has_node(&infra_uid("app", "template.yaml", "Pol")));
    assert_eq!((cov.resources_total, cov.iam_policy_grants_unattributed), (2, 0));

    let mut g = Graph::new();
    let cov = build_infra_plane(&mut g, "app", &template(vec![policy("Gone")]), &vec![]);
    assert_eq!(cov.iam_policy_grants_unattributed, 1);
    assert!(of(&g, EdgeKind::Grants).is_empty());
}

#[test]
fn a_reference_to_nothing_gives_no_edge() {
    let ds = InfraResource {
        lambda_ref: Some(RefValue::Resource("Gone".into())),
        api_ref: Some(RefValue::InferredMulti(vec!["Api".into(), "Other".into()])),
        ..resource("Ds", InfraKind::AppSyncDataSource)
    };
    let mut g = Graph::new();
    build_infra_plane(&mut g, "app", &template(vec![resource("Api", InfraKind::AppSyncApi), ds]), &vec![]);
    assert!(of(&g, EdgeKind::Routes).is_empty());
    let contains = of(&g, EdgeKind::Contains);
    assert_eq!(contains.len(), 1);
    assert_eq!(contains[0].src, infra_uid("app", "template.yaml", "Api"));
    assert_eq!(contains[0].dst, infra_uid("app", "template.yaml", "Ds"));
}

#[test]
fn units_link_to_the_units_of_their_config_paths() {
    let unit = |path: &str, deps: &[&str]| TerragruntUnit {
        path: path.into(),
        dependencies: deps
            .iter()
            .map(|d| TerragruntDependency { name: "d".into(), config_path: d.to_string() })
            .collect(),
    };
    let units = vec![
        unit("live/app/terragrunt.hcl", &["../vpc", "../gone"]),
        unit("live/vpc/terragrunt.hcl", &[]),
    ];
    let mut g = Graph::new();
    let cov = build_terragrunt_plane(&mut g, "app", &units);
    let deps = of(&g, EdgeKind::Routes);
    assert_eq!(deps.len(), 1);
    assert_eq!(deps[0].src, terragrunt_uid("app", "live/app/terragrunt.hcl"));
    assert_eq!(deps[0].dst, terragrunt_uid("app", "live/vpc/terragrunt.hcl"));
    assert_eq!(deps[0].confidence.billionths, CONF_TG_DEP);
    assert_eq!(
        (cov.units_detected, cov.deps_total, cov.deps_linked, cov.deps_unresolved),
        (2, 2, 1, 1)
    );
    assert!(g.nodes.iter().all(|n| n.kind == NodeKind::CloudResource));
}

#[test]
fn directories_and_handlers_are_worked_out() {
    assert_eq!(unit_dir("live/vpc/terragrunt.hcl"), "live/vpc");
    assert_eq!(unit_dir("terragrunt.hcl"), ".");
    assert_eq!(resolve_rel_dir("live/app", "../vpc"), Some("live/vpc".into()));
    assert_eq!(resolve_rel_dir("live", ".."), Some(".".into()));
    assert_eq!(resolve_rel_dir("app", "../../vpc"), None);
    assert_eq!(normalize_dir("./src/"), "src");
    assert_eq!(normalize_dir("."), "");
    let paths = handler_candidate_paths("svc/template.yaml", &Some("src/".into()), "app.lambda_handler");
    assert!(paths.contains(&"svc/src/app.py".to_string()));
    assert!(paths.contains(&"svc/src/app.ts".to_string()));
    assert!(is_root_type("Mutation") && !is_root_type("User"));
}

#[test]
fn a_path_above_the_root_names_no_unit() {
    let units = vec![
        TerragruntUnit {
            path: "app/terragrunt.hcl".into(),
            dependencies: vec![TerragruntDependency { name: "vpc".into(), config_path: "../../vpc".into() }],
        },
        TerragruntUnit { path: "vpc/terragrunt.hcl".into(), dependencies: vec![] },
    ];
    let mut g = Graph::new();
    let cov = build_terragrunt_plane(&mut g, "app", &units);
    assert_eq!((cov.units_detected, cov.deps_total, cov.deps_linked, cov.deps_unresolved), (2, 1, 0, 1));
    assert!(g.edges.is_empty());
}

#[test]
fn building_a_plane_twice_is_building_it_once() {
    let role = RefValue::Resource("Role".into());
    let f = InfraResource {
        role_refs: vec![role, RefValue::Resource("Role".into())],
        granted_actions: vec!["s3:GetObject".into()],
        handler: Some("app.handler".into()),
        code_uri: Some("src".into()),
        ..resource("Fn", InfraKind::LambdaFunction)
    };
    let ds = InfraResource {
        lambda_ref: Some(RefValue::Resource("Fn".into())),
        api_ref: Some(RefValue::Resource("Api".into())),
        ..resource("Ds", InfraKind::AppSyncDataSource)
    };
    let templates =
        template(vec![resource("Role", InfraKind::IamRole), resource("Api", InfraKind::AppSyncApi), f, ds]);
    let files = vec![module("src/app.py")];
    let mut g = Graph::new();
    let first = build_infra_plane(&mut g, "app", &templates, &files);
    assert_eq!(of(&g, EdgeKind::Assumes).len(), 2, "a role that is named twice is assumed twice");
    let (nodes, edges) = (g.nodes.len(), g.edges.clone());
    assert_eq!(build_infra_plane(&mut g, "app", &templates, &files), first);
    assert_eq!((g.nodes.len(), &g.edges), (nodes, &edges));

    let units = vec![
        TerragruntUnit {
            path: "live/app/terragrunt.hcl".into(),
            dependencies: vec![
                TerragruntDependency { name: "vpc".into(), config_path: "../vpc".into() },
                TerragruntDependency { name: "net".into(), config_path: "../vpc".into() },
            ],
        },
        TerragruntUnit { path: "live/vpc/terragrunt.hcl".into(), dependencies: vec![] },
    ];
    let before = of(&g, EdgeKind::Routes).len();
    let first = build_terragrunt_plane(&mut g, "app", &units);
    assert_eq!(of(&g, EdgeKind::Routes).len(), before + 2, "each dependency gives an edge");
    assert_eq!((first.deps_total, first.deps_linked), (2, 2));
    let (nodes, edges) = (g.nodes.len(), g.edges.clone());
    assert_eq!(build_terragrunt_plane(&mut g, "app", &units), first);
    assert_eq!((g.nodes.len(), &g.edges), (nodes, &edges));
}

#[test]
fn a_unit_never_depends_on_itself() {
    let units = vec![TerragruntUnit {
        path: "live/app/terragrunt.hcl".into(),
        dependencies: vec![
            TerragruntDependency { name: "me".into(), config_path: ".".into() },
            TerragruntDependency { name: "me".into(), config_path: "../app".into() },
        ],
    }];
    let mut g = Graph::new();
    let cov = build_terragrunt_plane(&mut g, "app", &units);
    assert!(g.edges.is_empty());
    assert_eq!((cov.units_detected, cov.deps_total, cov.deps_linked, cov.deps_unresolved), (1, 2, 0, 2));
}

#[test]
fn every_handler_and_every_root_resolver_is_counted() {
    let function = |id: &str, handler: Option<&str>| InfraResource {
        handler: handler.map(|h| h.to_string()),
        ..resource(id, InfraKind::LambdaFunction)
    };
    let resolver = |id: &str, ty: Option<&str>, field: Option<&str>| InfraResource {
        parent_type: ty.map(|t| t.to_string()),
        field_name: field.map(|f| f.to_string()),
        ..resource(id, InfraKind::AppSyncResolver)
    };
    let templates = template(vec![
        function("A", Some("app.handler")),
        function("B", Some("gone.handler")),
        function("C", None),
        resolver("R", Some("Query"), Some("user")),
        resolver("S", Some("User"), Some("name")),
        resolver("T", Some("Query"), None),
        InfraResource { handler: Some("app.handler".into()), ..resource("G", InfraKind::Generic) },
    ]);
    let mut g = Graph::new();
    let cov = build_infra_plane(&mut g, "app", &templates, &vec![module("app.py")]);
    assert_eq!(cov.resources_total, 7);
    assert_eq!((cov.lambdas_runs_linked, cov.lambdas_handler_unresolved), (1, 1));
    assert_eq!((cov.resolvers_total, cov.resolvers_linked, cov.resolvers_unlinked), (1, 0, 1));
}
