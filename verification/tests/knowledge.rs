use strata_index::knowledge::{
    assemble_graph_with_knowledge, build_knowledge_plane, candidates_for, doc_section_uid, doc_uid, is_path_bearing,
    DocModel, DocRef, DocRefKind, DocSectionModel, KNOW_AMBIGUOUS, KNOW_MENTION_FQN, KNOW_MENTION_NAME,
    KNOW_MENTION_PATH,
};
use strata_index::model::{Edge, EdgeKind, Graph, NodeKind, Provenance, Span, Uid};

const REPO: &str = "kt";

fn section(heading: &str, anchor: &str, refs: Vec<DocRef>) -> DocSectionModel {
    DocSectionModel { heading: heading.into(), anchor: anchor.into(), span: Span::default(), refs }
}

fn reference(kind: DocRefKind, text: &str) -> DocRef {
    DocRef { kind, text: text.into() }
}

fn doc(path: &str, sections: Vec<DocSectionModel>) -> DocModel {
    DocModel { path: path.into(), sections }
}

fn from<'a>(g: &'a Graph, uid: &Uid) -> Vec<&'a Edge> {
    g.edges.iter().filter(|e| e.src == *uid).collect()
}

#[test]
fn doc_section_uid_matches_the_pinned_shape() {
    let uid = doc_section_uid(REPO, "docs/guide.md", "using-alphaone");
    assert_eq!(uid.as_str(), "doc|kt|docs/guide.md|docs/guide.md#using-alphaone|");
}

#[test]
fn doc_uid_fqn_is_the_path_itself() {
    let uid = doc_uid(REPO, "docs/guide.md");
    assert_eq!(uid.as_str(), "doc|kt|docs/guide.md|docs/guide.md|");
}

#[test]
fn contains_edge_is_extracted_and_certain() {
    let mut g = Graph::new();
    let cov = build_knowledge_plane(
        &mut g,
        REPO,
        &vec![doc("docs/guide.md", vec![section("Heading", "heading", vec![])])],
    );
    assert_eq!(cov.docs, 1);
    assert_eq!(cov.sections, 1);

    let d_uid = doc_uid(REPO, "docs/guide.md");
    let s_uid = doc_section_uid(REPO, "docs/guide.md", "heading");
    let contains: Vec<&Edge> = g.edges.iter().filter(|e| e.src == d_uid && e.dst == s_uid).collect();
    assert_eq!(contains.len(), 1, "exactly one Doc-Contains-DocSection edge");
    assert_eq!(contains[0].kind, EdgeKind::Contains);
    assert_eq!(contains[0].provenance, Provenance::Extracted);
    assert_eq!(contains[0].confidence.billionths, 1_000_000_000);
}

#[test]
fn a_doc_that_pathrefs_its_own_file_is_skipped_silently() {
    let mut g = Graph::new();
    let cov = build_knowledge_plane(
        &mut g,
        REPO,
        &vec![doc(
            "docs/self.md",
            vec![section("Heading", "heading", vec![reference(DocRefKind::PathRef, "docs/self.md")])],
        )],
    );

    assert_eq!(cov.mentions_linked, 0, "self-mention is not linked");
    assert_eq!(cov.mentions_ambiguous, 0);
    assert_eq!(cov.stale_doc_mentions, 0, "self-mention is not stale either");

    let s_uid = doc_section_uid(REPO, "docs/self.md", "heading");
    assert_eq!(from(&g, &s_uid).len(), 0, "no Mentions edge for a pure self-reference");
}

#[test]
fn fence_token_miss_is_not_edged_and_not_stale_but_inline_code_miss_is_stale() {
    let mut g = Graph::new();
    let cov = build_knowledge_plane(
        &mut g,
        REPO,
        &vec![doc(
            "docs/g.md",
            vec![section(
                "H",
                "h",
                vec![
                    reference(DocRefKind::FenceToken, "r.process"),
                    reference(DocRefKind::FenceToken, "process"),
                    reference(DocRefKind::InlineCode, "vanishedSymbol"),
                ],
            )],
        )],
    );

    assert_eq!(cov.mentions_linked, 0, "neither fence token nor the inline-code miss produced an edge");
    assert_eq!(cov.mentions_ambiguous, 0);
    assert_eq!(
        cov.stale_doc_mentions, 1,
        "only the InlineCode miss (vanishedSymbol) counts as stale; the two fence-token misses do not"
    );

    let s_uid = doc_section_uid(REPO, "docs/g.md", "h");
    assert_eq!(
        from(&g, &s_uid).len(),
        0,
        "no Mentions edge from either fence token or the stale inline code"
    );
}

#[test]
fn ambiguity_is_graded_on_raw_candidates_before_the_self_skip_filter() {
    let mut g = Graph::new();
    let cov = build_knowledge_plane(
        &mut g,
        REPO,
        &vec![
            doc(
                "packages/a/README.md",
                vec![section("H", "h", vec![reference(DocRefKind::InlineCode, "README.md")])],
            ),
            doc("packages/b/README.md", vec![section("H", "h", vec![])]),
        ],
    );

    let sec_a = doc_section_uid(REPO, "packages/a/README.md", "h");
    let doc_b_uid = doc_uid(REPO, "packages/b/README.md");
    let edges: Vec<&Edge> = g
        .edges
        .iter()
        .filter(|e| e.kind == EdgeKind::Mentions && e.src == sec_a && e.dst == doc_b_uid)
        .collect();
    assert_eq!(edges.len(), 1, "one Mentions edge from A's section to doc B: {edges:?}");
    assert_eq!(
        edges[0].provenance,
        Provenance::Ambiguous,
        "must be Ambiguous even though self-filtering left exactly one survivor"
    );
    assert_eq!(edges[0].confidence.billionths, KNOW_AMBIGUOUS);
    assert_eq!(cov.mentions_ambiguous, 1);
    assert_eq!(cov.mentions_linked, 1);
    assert_eq!(cov.stale_doc_mentions, 0);
}

#[test]
fn know_confidence_constants_are_within_their_bands() {
    const {
        assert!(KNOW_MENTION_PATH >= 950_000_000 && KNOW_MENTION_PATH <= 1_000_000_000);
    }
    const {
        assert!(KNOW_MENTION_FQN >= 400_000_000 && KNOW_MENTION_FQN <= 800_000_000);
    }
    const {
        assert!(KNOW_MENTION_NAME >= 400_000_000 && KNOW_MENTION_NAME <= 800_000_000);
    }
    const {
        assert!(KNOW_MENTION_FQN > KNOW_MENTION_NAME);
    }
    const {
        assert!(KNOW_AMBIGUOUS < 400_000_000);
    }
}

#[test]
fn a_section_mentions_a_node_once() {
    let mut g = Graph::new();
    let twice = vec![
        reference(DocRefKind::PathRef, "docs/b.md"),
        reference(DocRefKind::InlineCode, "docs/b.md"),
    ];
    let docs =
        vec![doc("docs/a.md", vec![section("H", "h", twice)]), doc("docs/b.md", vec![section("B", "b", vec![])])];
    let cov = build_knowledge_plane(&mut g, REPO, &docs);
    let s_uid = doc_section_uid(REPO, "docs/a.md", "h");
    let mentions = from(&g, &s_uid);
    assert_eq!(mentions.len(), 1);
    assert_eq!(mentions[0].dst, doc_uid(REPO, "docs/b.md"));
    assert_eq!(mentions[0].provenance, Provenance::Extracted);
    assert_eq!(mentions[0].confidence.billionths, KNOW_MENTION_PATH);
    assert_eq!(cov.mentions_linked, 2);
}

#[test]
fn references_are_graded_by_what_they_match() {
    let (g, _) = assemble_graph_with_knowledge(
        &vec![],
        REPO,
        &vec![doc("docs/a.md", vec![section("Guide", "guide", vec![])])],
    );
    let (uids, conf, prov) = candidates_for(&g, &reference(DocRefKind::InlineCode, "docs/a.md"));
    assert_eq!((uids.len(), conf, prov), (1, KNOW_MENTION_FQN, Provenance::Inferred));
    let (uids, conf, _) = candidates_for(&g, &reference(DocRefKind::InlineCode, "Guide"));
    assert_eq!((uids.len(), conf), (1, KNOW_MENTION_NAME));
    let (uids, _, _) = candidates_for(&g, &reference(DocRefKind::FenceToken, "Guide"));
    assert!(uids.is_empty());
    assert!(is_path_bearing(NodeKind::Module));
    assert!(!is_path_bearing(NodeKind::Function));
}

#[test]
fn a_document_may_refer_to_one_that_comes_later() {
    let a = || doc("docs/a.md", vec![section("A", "a", vec![reference(DocRefKind::PathRef, "docs/b.md")])]);
    let b = || {
        doc(
            "docs/b.md",
            vec![section(
                "B",
                "b",
                vec![reference(DocRefKind::InlineCode, "gone"), reference(DocRefKind::FenceToken, "gone")],
            )],
        )
    };
    for docs in [vec![a(), b()], vec![b(), a()]] {
        let mut g = Graph::new();
        let cov = build_knowledge_plane(&mut g, REPO, &docs);
        assert_eq!((cov.mentions_linked, cov.mentions_ambiguous, cov.stale_doc_mentions), (1, 0, 1));
        assert_eq!(from(&g, &doc_section_uid(REPO, "docs/a.md", "a"))[0].dst, doc_uid(REPO, "docs/b.md"));
        assert_eq!(g.nodes.len(), 4);
    }
}
