use strata_index::docs_index::{
    entry_fields, is_stale_dir, stale_dir_name, swap_plan, DocsEntryKind, DocsIndexEntry, SwapStep, DOCS_INDEX_DIR,
    DOCS_INDEX_TMP_DIR,
};

#[test]
fn docs_entry_kind_serializes_to_the_pinned_strings() {
    assert_eq!(DocsEntryKind::Section.as_str(), "section");
    assert_eq!(DocsEntryKind::DocComment.as_str(), "doc_comment");
    assert_eq!(DocsEntryKind::SpecDescription.as_str(), "spec_description");
}

#[test]
fn an_entry_becomes_named_fields() {
    let entry = DocsIndexEntry {
        uid: "u".into(),
        name: "n".into(),
        path: "p.md".into(),
        anchor: "a".into(),
        kind: DocsEntryKind::Section,
        body: "some body".into(),
    };
    let fields = entry_fields(&entry);
    let get = |name: &str| fields.iter().find(|f| f.name == name).unwrap();
    assert_eq!(get("uid").text, "u");
    assert_eq!(get("kind").text, "section");
    assert_eq!(get("body").text, "some body");
    assert!(get("body").tokenized);
    assert!(!get("uid").tokenized);
}

#[test]
fn a_swap_moves_the_old_index_aside() {
    assert_eq!(
        swap_plan(false, 7),
        vec![SwapStep::Rename { from: DOCS_INDEX_TMP_DIR.into(), to: DOCS_INDEX_DIR.into() }]
    );
    let replacing = swap_plan(true, 7);
    assert!(replacing.contains(&SwapStep::Rename { from: DOCS_INDEX_DIR.into(), to: stale_dir_name(7) }));
    assert_eq!(
        replacing.last(),
        Some(&SwapStep::Rename { from: DOCS_INDEX_TMP_DIR.into(), to: DOCS_INDEX_DIR.into() })
    );
}

#[test]
fn stale_directories_are_told_by_name() {
    assert_eq!(stale_dir_name(42), "docs.idx.stale-42");
    assert!(is_stale_dir("docs.idx.stale-42"));
    assert!(!is_stale_dir(DOCS_INDEX_DIR));
    assert!(!is_stale_dir(DOCS_INDEX_TMP_DIR));
}
