use strata_index::module_fs::{BTreeMapModuleFs, FsModuleFs};

#[test]
fn btreemap_fs_reports_membership() {
    let keys: Vec<String> = vec!["src/a.ts".to_string(), "src/b.ts".to_string()];
    let fs = BTreeMapModuleFs::new(&keys);
    assert!(fs.has_file("src/a.ts"));
    assert!(fs.has_file("src/b.ts"));
    assert!(!fs.has_file("src/c.ts"));
    assert!(!fs.has_file("src/b"));
}

#[test]
fn a_path_is_located_below_the_root() {
    let fs = FsModuleFs::new("/repo");
    assert_eq!(fs.root(), "/repo");
    assert_eq!(fs.locate("src/a.ts"), Some(vec!["src".to_string(), "a.ts".to_string()]));
    assert_eq!(fs.locate("../outside.ts"), None);
    assert_eq!(fs.locate("src/../../outside.ts"), None);
}
