use strata_index::tsconfig::parse_tsconfig;

#[test]
fn parses_base_url_and_paths() {
    let json = r#"{
            "compilerOptions": {
                "baseUrl": "src",
                "paths": { "@app/*": ["app/*"], "@lib": ["lib/index.ts"] }
            }
        }"#;
    let opts = parse_tsconfig(json);
    assert_eq!(opts.base_url.as_deref(), Some("src"));
    assert!(opts.paths.iter().any(|m| m.pattern == "@app/*" && m.targets == vec!["app/*".to_string()]));
    assert!(opts.paths.iter().any(|m| m.pattern == "@lib" && m.targets == vec!["lib/index.ts".to_string()]));
}

#[test]
fn missing_compiler_options_is_default() {
    let opts = parse_tsconfig("{}");
    assert!(opts.base_url.is_none());
    assert!(opts.paths.is_empty());
}

#[test]
fn malformed_json_is_default() {
    let opts = parse_tsconfig("{ not valid json");
    assert!(opts.base_url.is_none());
    assert!(opts.paths.is_empty());
}

#[test]
fn what_is_no_text_is_passed_over() {
    let opts = parse_tsconfig(r#"{"compilerOptions":{"baseUrl":7,"paths":{"a":["x",3],"b":"no"}}}"#);
    assert!(opts.base_url.is_none());
    let a = opts.paths.iter().find(|m| m.pattern == "a").unwrap();
    assert_eq!(a.targets, vec!["x".to_string()]);
}
