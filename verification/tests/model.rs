use strata_index::lang::{code_lang, code_language_of};
use strata_index::model::{
    extracted_edge, extracted_node, Confidence, Direction, EdgeKind, Graph, NodeKind, Span, Uid,
};
use strata_index::order::{insert_text, text_less};
use strata_index::ordmap::OrdMap;
use strata_index::text;

fn node(name: &str) -> strata_index::model::Node {
    extracted_node(Uid(name.into()), NodeKind::Function, name, name, "p", Span::default())
}

#[test]
fn a_node_replaces_the_one_of_its_identifier() {
    let mut g = Graph::new();
    g.add_node(node("a"));
    g.add_node(node("b"));
    let again = extracted_node(Uid("a".into()), NodeKind::Class, "A", "A", "p", Span::default());
    g.add_node(again);
    assert_eq!(g.node_count(), 2);
    assert_eq!(g.get_node(&Uid("a".into())).unwrap().kind, NodeKind::Class);
    assert!(g.get_node(&Uid("c".into())).is_none());
}

#[test]
fn neighbours_are_nodes() {
    let mut g = Graph::new();
    g.add_node(node("a"));
    g.add_node(node("b"));
    g.add_edge(extracted_edge(&Uid("a".into()), &Uid("b".into()), EdgeKind::Calls));
    g.add_edge(extracted_edge(&Uid("a".into()), &Uid("gone".into()), EdgeKind::Calls));
    assert_eq!(g.neighbors(&Uid("a".into()), Direction::Outgoing, &vec![]).len(), 1);
    assert_eq!(g.neighbors(&Uid("b".into()), Direction::Incoming, &vec![EdgeKind::Calls]).len(), 1);
    assert!(g.neighbors(&Uid("b".into()), Direction::Incoming, &vec![EdgeKind::Imports]).is_empty());
    assert_eq!(g.outgoing_edges().len(), 1);
    assert_eq!(g.edge_count(), 2);
}

#[test]
fn lists_are_added_at_once() {
    let mut g = Graph::new();
    let edge = extracted_edge(&Uid("a".into()), &Uid("b".into()), EdgeKind::Calls);
    g.add_all(&vec![node("a"), node("b"), node("a")], &vec![edge.clone(), edge]);
    assert_eq!((g.node_count(), g.edge_count()), (2, 2));
}

#[test]
fn confidence_stops_at_certainty() {
    assert_eq!(Confidence::new(1_500_000_000).billionths, 1_000_000_000);
    assert_eq!(Confidence::new(7).billionths, 7);
    assert_eq!(Uid::new("ts", "app", "a.ts", "f", "()").as_str(), "ts|app|a.ts|f|()");
}

#[test]
fn languages_follow_extensions() {
    assert_eq!(code_language_of("a/b.TSX"), Some("ts"));
    assert_eq!(code_language_of("a.pyi"), Some("py"));
    assert_eq!(code_language_of("a.cs"), Some("cs"));
    assert_eq!(code_language_of("a.rs"), Some("rust"));
    assert_eq!(code_language_of("a.md"), None);
    assert_eq!(code_lang("q.graphql"), "ts");
}

#[test]
fn maps_keep_their_keys_in_order() {
    let mut m = OrdMap::new();
    for k in ["b", "a", "c", "a"] {
        m.insert(k.to_string(), k.len());
    }
    assert_eq!(m.keys, vec!["a", "b", "c"]);
    assert_eq!(m.len(), 3);
    let mut list = vec![];
    for k in ["y", "x", "y"] {
        insert_text(&mut list, k.to_string());
    }
    assert_eq!(list, vec!["x", "y"]);
    assert!(text_less("a", "b") && text_less("a", "ab") && !text_less("b", "a") && !text_less("a", "a"));
}

#[test]
fn texts_are_cut_and_joined_as_they_read() {
    assert_eq!(text::split_char("a,,b", ','), vec!["a", "", "b"]);
    assert_eq!(text::lines_of("a\r\nb\n"), vec!["a", "b"]);
    assert_eq!(text::trim("  é \u{a0}"), "é");
    assert_eq!(text::to_lower("AbÉ"), "abÉ");
    assert_eq!(text::after_last_of("a/b/c", '/'), "c");
    assert_eq!(text::before_last_of("a/b/c", '/'), "a/b");
    assert_eq!(text::decimal_of(0), "0");
    assert_eq!(text::decimal_of(340282366920938463463374607431768211455), "340282366920938463463374607431768211455");
    assert_eq!(text::join(&vec!["a".into(), "b".into()], ", "), "a, b");
    assert!(text::contains_str("haystack", "sta") && !text::contains_str("haystack", "xyz"));
}
