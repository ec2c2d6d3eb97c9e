use strata_index::model::{Confidence, Edge, EdgeKind, Graph, Node, NodeKind, Provenance, Span, Uid};
use strata_index::rename::{
    collisions_for, grammar_for, identifier_hits, identifier_tokens, implicated_files, is_code_target_kind,
    line_start_offsets, rename, rename_files, resolve_code_target, rewrite_file, Edit, FileRead, Grammar, RenameError,
    RenameOptions, RenameOutcome, SyntaxNode, TargetNode, TargetResolution, DEF_SITE_CONFIDENCE,
};

fn node(uid: &str, name: &str, kind: NodeKind, path: &str) -> Node {
    Node {
        uid: Uid(uid.into()),
        kind,
        name: name.into(),
        fqn: name.into(),
        path: path.into(),
        span: Span::default(),
        provenance: Provenance::Extracted,
        confidence: Confidence::new(1_000_000_000),
    }
}

fn edge(src: &str, dst: &str, kind: EdgeKind, conf: u32) -> Edge {
    Edge {
        src: Uid(src.into()),
        dst: Uid(dst.into()),
        kind,
        provenance: Provenance::Inferred,
        confidence: Confidence::new(conf),
    }
}

#[test]
fn identifier_tokens_ts_skips_strings_and_comments() {
    let src = "export function foo() { return 1; }\n\
               export function bar() { return foo(); }\n\
               // foo in a comment\n\
               const s = \"foo in a string\";\n";
    let hits = identifier_tokens("src/a.ts", src, "foo");
    assert_eq!(
        hits,
        vec![(1, 16), (2, 31)],
        "only the identifier def + call sites, not the comment/string; got {hits:?}"
    );
}

#[test]
fn identifier_tokens_py_def_and_call() {
    let src = "def foo():\n    return 1\n\n\ndef bar():\n    return foo()\n# foo comment\n";
    let hits = identifier_tokens("svc/a.py", src, "foo");
    assert_eq!(hits, vec![(1, 4), (6, 11)], "py def + call; got {hits:?}");
}

#[test]
fn identifier_tokens_cs_method_decl_and_call() {
    let src = "namespace App\n{\n    class Svc\n    {\n        public int Foo() { return 1; }\n        public int Bar() { return Foo(); }\n    }\n}\n";
    let hits = identifier_tokens("Svc.cs", src, "Foo");
    assert_eq!(hits, vec![(5, 19), (6, 34)], "cs method decl + call; got {hits:?}");
}

#[test]
fn identifier_tokens_rust_and_javascript() {
    let rust = "fn foo() {}\nfn bar() { foo(); }\n// foo\n";
    assert_eq!(identifier_tokens("src/lib.rs", rust, "foo"), vec![(1, 3), (2, 11)]);
    let js = "function foo() {}\nfoo();\nconst s = 'foo';\n";
    assert_eq!(identifier_tokens("a.js", js, "foo"), vec![(1, 9), (2, 0)]);
    let tsx = "const foo = 1;\nconst el = <p>{foo}</p>;\n";
    assert_eq!(identifier_tokens("a.tsx", tsx, "foo"), vec![(1, 6), (2, 15)]);
}

#[test]
fn identifier_tokens_non_code_file_is_empty() {
    assert!(identifier_tokens("README.md", "# foo\nfoo foo\n", "foo").is_empty());
}

#[test]
fn resolve_rejects_non_code_target() {
    let mut g = Graph::new();
    g.add_node(node(
        "gql|app|s.graphql|Query.getX|()",
        "Query.getX",
        NodeKind::GraphqlField,
        "s.graphql",
    ));
    let err = resolve_code_target(&g, "Query.getX", None).unwrap_err();
    match err {
        RenameError::NotCodeSymbol(name, kind) => {
            assert_eq!(name, "Query.getX");
            assert_eq!(kind, "GraphqlField");
        }
        other => panic!("expected NotCodeSymbol, got {other:?}"),
    }
}

#[test]
fn resolve_returns_candidates_when_ambiguous() {
    let mut g = Graph::new();
    g.add_node(node("ts|a|a.ts|foo|()", "foo", NodeKind::Function, "a.ts"));
    g.add_node(node("ts|a|b.ts|foo|()", "foo", NodeKind::Function, "b.ts"));
    match resolve_code_target(&g, "foo", None).unwrap() {
        TargetResolution::Many(c) => assert_eq!(c.len(), 2),
        TargetResolution::One(_) => panic!("expected ambiguous candidates"),
    }
}

#[test]
fn resolve_uid_pins_one_candidate() {
    let mut g = Graph::new();
    g.add_node(node("ts|a|a.ts|foo|()", "foo", NodeKind::Function, "a.ts"));
    g.add_node(node("ts|a|b.ts|foo|()", "foo", NodeKind::Function, "b.ts"));
    match resolve_code_target(&g, "foo", Some("ts|a|b.ts|foo|()")).unwrap() {
        TargetResolution::One(n) => assert_eq!(n.path, "b.ts"),
        TargetResolution::Many(_) => panic!("uid must pin one"),
    }
    assert_eq!(
        resolve_code_target(&g, "foo", Some("none")),
        Err(RenameError::UidNotFound("none".into(), "foo".into()))
    );
}

#[test]
fn resolve_not_found_is_an_error() {
    let g = Graph::new();
    assert!(matches!(resolve_code_target(&g, "nope", None), Err(RenameError::NotFound(_))));
}

#[test]
fn implicated_files_are_def_plus_reference_edges_only() {
    let mut g = Graph::new();
    g.add_node(node("foo", "foo", NodeKind::Function, "a.ts"));
    g.add_node(node("bar", "bar", NodeKind::Function, "b.ts"));
    g.add_node(node("baz", "baz", NodeKind::Function, "c.ts"));
    g.add_node(node("qux", "qux", NodeKind::Function, "d.ts"));
    g.add_edge(edge("bar", "foo", EdgeKind::Calls, 800_000_000));
    g.add_edge(edge("foo", "qux", EdgeKind::Produces, 900_000_000));

    let target = TargetNode { uid: Uid("foo".into()), path: "a.ts".into() };
    let files = implicated_files(&g, &target);
    assert_eq!(files.get("a.ts"), Some(&DEF_SITE_CONFIDENCE));
    assert_eq!(files.get("b.ts"), Some(&800_000_000));
    assert!(!files.contains("c.ts"), "unrelated file not implicated");
    assert!(
        !files.contains("d.ts"),
        "a Produces-only edge does not implicate a file (no identifier token)"
    );
}

#[test]
fn collisions_lists_existing_same_name_nodes() {
    let mut g = Graph::new();
    g.add_node(node("ts|a|a.ts|taken|()", "taken", NodeKind::Function, "a.ts"));
    let hits = collisions_for(&g, "taken");
    assert_eq!(hits.len(), 1);
    assert!(collisions_for(&g, "free").is_empty());
}

#[test]
fn line_start_offsets_indexes_each_line() {
    assert_eq!(line_start_offsets("ab\ncd\n"), vec![0, 3, 6]);
}

fn two_files() -> Graph {
    let mut g = Graph::new();
    g.add_node(node("ts|a|a.ts|foo|()", "foo", NodeKind::Function, "a.ts"));
    g.add_node(node("ts|a|b.ts|bar|()", "bar", NodeKind::Function, "b.ts"));
    g.add_edge(edge("ts|a|b.ts|bar|()", "ts|a|a.ts|foo|()", EdgeKind::Calls, 800_000_000));
    g
}

fn read(path: &str, content: &str) -> FileRead {
    FileRead { path: path.into(), content: Ok(content.into()) }
}

#[test]
fn a_rename_plans_an_edit_for_each_token() {
    let g = two_files();
    let opts = RenameOptions::default();
    assert_eq!(rename_files(&g, "foo", "renamed", &opts), vec!["a.ts".to_string(), "b.ts".to_string()]);
    let reads = vec![
        read("a.ts", "export function foo() {}\n"),
        read("b.ts", "function bar() { foo(); } // foo\n"),
    ];
    match rename(&g, "foo", "renamed", &opts, &reads).unwrap() {
        RenameOutcome::Plan { target_uid, applied, implicated_files, edits, reindex_recommended, .. } => {
            assert_eq!(target_uid, "ts|a|a.ts|foo|()");
            assert!(!applied && !reindex_recommended);
            assert_eq!(implicated_files, vec!["a.ts".to_string(), "b.ts".to_string()]);
            let at: Vec<(&str, u32, u32, u32)> =
                edits.iter().map(|e| (e.file.as_str(), e.line, e.col, e.confidence)).collect();
            assert_eq!(at, vec![("a.ts", 1, 16, DEF_SITE_CONFIDENCE), ("b.ts", 1, 17, 800_000_000)]);
            assert!(edits.iter().all(|e| e.old == "foo" && e.new == "renamed"));
        }
        other => panic!("expected a plan, got {other:?}"),
    }
}

#[test]
fn a_rename_onto_a_taken_name_fails_unless_forced() {
    let mut g = two_files();
    g.add_node(node("ts|a|c.ts|taken|()", "taken", NodeKind::Function, "c.ts"));
    let reads = vec![read("a.ts", "function foo() {}\n"), read("b.ts", "")];
    let err = rename(&g, "foo", "taken", &RenameOptions { apply: true, ..RenameOptions::default() }, &reads);
    assert!(matches!(err, Err(RenameError::Collision { count: 1, .. })), "got {err:?}");
    let forced = RenameOptions { force: true, ..RenameOptions::default() };
    assert!(rename(&g, "foo", "taken", &forced, &reads).is_ok());
}

#[test]
fn an_ambiguous_rename_lists_candidates_and_an_unreadable_file_is_an_error() {
    let mut g = two_files();
    let unreadable = vec![FileRead { path: "a.ts".into(), content: Err("denied".into()) }, read("b.ts", "")];
    let apply = RenameOptions { apply: true, ..RenameOptions::default() };
    let err = rename(&g, "foo", "x", &apply, &unreadable).unwrap_err();
    assert!(matches!(err, RenameError::Io { .. }), "got {err:?}");
    assert!(err.message().contains("denied"));
    g.add_node(node("ts|a|c.ts|foo|()", "foo", NodeKind::Function, "c.ts"));
    match rename(&g, "foo", "x", &RenameOptions::default(), &vec![]).unwrap() {
        RenameOutcome::Candidates { symbol, candidates } => {
            assert_eq!(symbol, "foo");
            assert_eq!(candidates.len(), 2);
        }
        other => panic!("expected candidates, got {other:?}"),
    }
}

fn plan(line: u32, col: u32) -> Edit {
    Edit { file: "a.ts".into(), line, col, old: "foo".into(), new: "longer".into(), confidence: 1 }
}

#[test]
fn rewriting_replaces_each_token_and_nothing_else() {
    let out = rewrite_file("foo(foo);\nfoo\n", &vec![plan(1, 0), plan(1, 4), plan(2, 0)], "a.ts");
    assert_eq!(String::from_utf8(out).unwrap(), "longer(longer);\nlonger\n");
    let untouched = rewrite_file("foo(foo);\n", &vec![], "a.ts");
    assert_eq!(String::from_utf8(untouched).unwrap(), "foo(foo);\n");
    let accents = rewrite_file("é foo\n", &vec![plan(1, 3)], "a.ts");
    assert_eq!(String::from_utf8(accents).unwrap(), "é longer\n");
}

#[test]
fn identifier_leaves_are_found_among_nodes() {
    let nodes = vec![
        SyntaxNode::new("program", 1, 0, 7, 0, 0),
        SyntaxNode::new("identifier", 0, 0, 3, 0, 0),
        SyntaxNode::new("comment", 0, 4, 7, 0, 4),
    ];
    assert_eq!(identifier_hits(&nodes, "foo foo", "foo"), vec![(1, 0)]);
    assert!(identifier_hits(&nodes, "foo foo", "bar").is_empty());
}

#[test]
fn grammars_and_kinds_follow_the_file() {
    assert_eq!(grammar_for("a.ts"), Some(Grammar::TypeScript));
    assert_eq!(grammar_for("a.tsx"), Some(Grammar::Tsx));
    assert_eq!(grammar_for("a.py"), Some(Grammar::Python));
    assert_eq!(grammar_for("a.md"), None);
    assert!(is_code_target_kind(NodeKind::Class));
    assert!(!is_code_target_kind(NodeKind::Table));
}

#[test]
fn rename_errors_say_what_is_wrong() {
    assert!(RenameError::NotFound("x".into()).message().contains("x"));
    assert!(RenameError::NotCodeSymbol("x".into(), "Table".into()).message().contains("Table"));
    assert!(RenameError::UidNotFound("u".into(), "x".into()).message().contains("u"));
    let e = RenameError::Collision { new_name: "n".into(), count: 2, list: "a, b".into() };
    assert!(e.message().contains("a, b"));
}

#[test]
fn a_planned_rename_leaves_out_what_cannot_be_read() {
    let g = two_files();
    let reads = vec![
        FileRead { path: "a.ts".into(), content: Err("denied".into()) },
        read("b.ts", "function bar() { foo(); }\n"),
    ];
    match rename(&g, "foo", "x", &RenameOptions::default(), &reads).unwrap() {
        RenameOutcome::Plan { applied, implicated_files, edits, .. } => {
            assert!(!applied);
            assert_eq!(implicated_files, vec!["a.ts".to_string(), "b.ts".to_string()]);
            assert_eq!(edits.iter().map(|e| e.file.as_str()).collect::<Vec<_>>(), vec!["b.ts"]);
        }
        other => panic!("expected a plan, got {other:?}"),
    }
}
