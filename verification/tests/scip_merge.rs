use strata_index::analysis::{AnalyzedFile, FileEntry, RawSymbol, SourceText};
use strata_index::model::{NodeKind, Span, Uid};
use strata_index::scip_merge::{
    build_symbol_indices, match_named_def, nth_line, package_from_moniker, scip_position, symbol_name_from_moniker,
    utf16_offset, LocEntry, MappedTarget, NameEntry, Position, ResolvedTarget, ScipEntry, ScipTable, SiteResolver,
    SymbolIndices,
};

#[test]
fn utf16_offset_ascii_is_identity() {
    let line = "export function run() { bar(); }";
    assert_eq!(utf16_offset(line, 0), 0);
    assert_eq!(utf16_offset(line, 24), 24);
    assert_eq!(utf16_offset(line, line.len()), line.len() as u32);
}

#[test]
fn utf16_offset_non_ascii_counts_code_units() {
    let line = "café(); nf();";
    assert_eq!(utf16_offset(line, 3), 3);
    assert_eq!(utf16_offset(line, 5), 4);
    assert_eq!(utf16_offset(line, 9), 8);
}

#[test]
fn utf16_offset_matches_fixture_uni_line() {
    let line = "export function uniCaller() { café(); naïve(); nf(); }";
    assert_eq!(utf16_offset(line, 30), 30);
    assert_eq!(utf16_offset(line, 39), 38);
    assert_eq!(utf16_offset(line, 49), 47);
}

#[test]
fn utf16_offset_handles_surrogate_pairs() {
    let line = "x = \"😀\"; y();";
    assert_eq!(utf16_offset(line, 5), 5);
    assert_eq!(utf16_offset(line, 9), 7);
}

#[test]
fn utf16_offset_is_robust_to_bad_columns() {
    let line = "café";
    assert_eq!(utf16_offset(line, 1000), 4, "past end clamps to line length");
    assert_eq!(utf16_offset(line, 4), 3, "inside a char rounds down");
}

#[test]
fn scip_position_carries_line_and_converted_col() {
    let pos = scip_position("café(); nf();", 7, 9);
    assert_eq!(pos.line, 7);
    assert_eq!(pos.character, 8);
}

#[test]
fn rust_impl_method_moniker_yields_method_name() {
    assert_eq!(
        symbol_name_from_moniker("rust-analyzer cargo shapes 0.0.0 models/impl#[Rectangle]new()."),
        Some("new".to_string())
    );
    assert_eq!(
        symbol_name_from_moniker("rust-analyzer cargo shapes 0.0.0 models/impl#[Rectangle]area()."),
        Some("area".to_string())
    );
    assert_eq!(
        symbol_name_from_moniker("rust-analyzer cargo shapes 0.0.0 models/impl#[Rectangle]scale()."),
        Some("scale".to_string())
    );
}

#[test]
fn rust_trait_impl_method_moniker_yields_method_name() {
    assert_eq!(
        symbol_name_from_moniker(
            "rust-analyzer cargo shapes 0.0.0 models/impl#[Rectangle][Shape]describe()."
        ),
        Some("describe".to_string())
    );
    assert_eq!(
        symbol_name_from_moniker(
            "rust-analyzer cargo shapes 0.0.0 models/impl#[Circle][Shape]describe()."
        ),
        Some("describe".to_string())
    );
}

#[test]
fn rust_non_impl_monikers_unchanged() {
    assert_eq!(
        symbol_name_from_moniker("rust-analyzer cargo shapes 0.0.0 compute/seed()."),
        Some("seed".to_string())
    );
    assert_eq!(
        symbol_name_from_moniker("rust-analyzer cargo shapes 0.0.0 models/Rectangle#"),
        Some("Rectangle".to_string())
    );
    assert_eq!(symbol_name_from_moniker("rust-analyzer cargo shapes 0.0.0 models/"), None);
}

#[test]
fn ts_and_py_monikers_unchanged_by_rust_shim() {
    assert_eq!(
        symbol_name_from_moniker("scip-typescript npm pkg 1.0.0 src/`b.ts`/foo()."),
        Some("foo".to_string())
    );
    assert_eq!(
        symbol_name_from_moniker("scip-typescript npm pkg 1.0.0 src/`b.ts`/Widget#save()."),
        Some("save".to_string())
    );
    assert_eq!(
        symbol_name_from_moniker("scip-typescript npm pkg 1.0.0 src/`b.ts`/Widget#"),
        Some("Widget".to_string())
    );
    assert_eq!(
        symbol_name_from_moniker("scip-typescript npm pkg 1.0.0 src/`b.ts`/`café`()."),
        Some("café".to_string())
    );
    assert_eq!(
        symbol_name_from_moniker("scip-python python shop 0.0.0 `shop.models`/Cart#total()."),
        Some("total".to_string())
    );
    assert_eq!(
        symbol_name_from_moniker("scip-python python shop 0.0.0 `shop.models`/sum_prices()."),
        Some("sum_prices".to_string())
    );
    assert_eq!(
        symbol_name_from_moniker("scip-python python shop 0.0.0 `shop.models`/Cart#"),
        Some("Cart".to_string())
    );
    assert_eq!(
        symbol_name_from_moniker("scip-python python shop 0.0.0 `shop.models`/__init__:"),
        None
    );
}

fn t_uid(file: &str, fqn: &str) -> Uid {
    Uid::new("ts", "t", file, fqn, "")
}

fn loc(file: &str, line: u32, name: &str, uid: &Uid) -> LocEntry {
    LocEntry { file: file.into(), line, name: name.into(), uid: uid.clone() }
}

fn named(file: &str, name: &str, uid: Option<Uid>) -> NameEntry {
    NameEntry { file: file.into(), name: name.into(), uid }
}

fn indices(nodes_by_loc: Vec<LocEntry>, by_file_name: Vec<NameEntry>) -> SymbolIndices {
    SymbolIndices { nodes_by_loc, by_file_name, module_by_file: vec![] }
}

#[test]
fn match_named_def_prefers_exact_line() {
    let parse = t_uid("src/lib.ts", "parse");
    let ix = indices(
        vec![loc("src/lib.ts", 20, "parse", &parse)],
        vec![named("src/lib.ts", "parse", Some(parse.clone()))],
    );
    assert_eq!(match_named_def(&ix, "src/lib.ts", 20, "parse"), Some(parse));
}

#[test]
fn match_named_def_overload_falls_back_to_unique_name() {
    let parse = t_uid("src/lib.ts", "parse");
    let ix = indices(
        vec![loc("src/lib.ts", 20, "parse", &parse)],
        vec![named("src/lib.ts", "parse", Some(parse.clone()))],
    );
    assert_eq!(
        match_named_def(&ix, "src/lib.ts", 18, "parse"),
        Some(parse),
        "an overload signature line must resolve to the unique impl node"
    );
}

#[test]
fn match_named_def_declines_ambiguous_name() {
    let rect_area = t_uid("src/shapes.ts", "Rect.area");
    let disc_area = t_uid("src/shapes.ts", "Disc.area");
    let ix = indices(
        vec![loc("src/shapes.ts", 7, "area", &rect_area), loc("src/shapes.ts", 16, "area", &disc_area)],
        vec![named("src/shapes.ts", "area", None)],
    );
    assert_eq!(match_named_def(&ix, "src/shapes.ts", 7, "area"), Some(rect_area));
    assert_eq!(match_named_def(&ix, "src/shapes.ts", 16, "area"), Some(disc_area));
    assert_eq!(
        match_named_def(&ix, "src/shapes.ts", 99, "area"),
        None,
        "an ambiguous name must never be merged on an exact miss"
    );
}

#[test]
fn match_named_def_absent_name_is_none() {
    let ix = indices(vec![], vec![]);
    assert_eq!(match_named_def(&ix, "src/lib.ts", 18, "ghost"), None);
}

fn symbol(kind: NodeKind, name: &str, fqn: &str, line: u32) -> RawSymbol {
    RawSymbol {
        kind,
        name: name.into(),
        fqn: fqn.into(),
        container_fqn: fqn.rfind('.').map(|i| fqn[..i].to_string()),
        span: Span { start_line: line, start_col: 0, end_line: line, end_col: 0 },
    }
}

fn overloads() -> Vec<FileEntry> {
    let mut file = AnalyzedFile::default();
    file.symbols = vec![
        symbol(NodeKind::Function, "parse", "parse", 3),
        symbol(NodeKind::Class, "Rect", "Rect", 4),
        symbol(NodeKind::Method, "area", "Rect.area", 4),
        symbol(NodeKind::Class, "Disc", "Disc", 5),
        symbol(NodeKind::Method, "area", "Disc.area", 5),
    ];
    vec![FileEntry { path: "src/lib.ts".into(), file }]
}

#[test]
fn build_symbol_indices_collapses_ambiguous_keeps_unique() {
    let idx = build_symbol_indices("t", &overloads());
    let find = |name: &str| {
        idx.by_file_name.iter().find(|e| e.file == "src/lib.ts" && e.name == name).map(|e| e.uid.clone())
    };
    assert_eq!(
        find("parse"),
        Some(Some(t_uid("src/lib.ts", "parse"))),
        "the overloaded parse must be a single unique symbol"
    );
    assert_eq!(find("area"), Some(None), "a name shared by two classes must collapse to ambiguous");
}

#[test]
fn lines_are_counted_from_zero() {
    assert_eq!(nth_line("a\r\nb\n", 0), Some("a".to_string()));
    assert_eq!(nth_line("a\r\nb\n", 1), Some("b".to_string()));
    assert_eq!(nth_line("a\r\nb\n", 9), None);
}

#[test]
fn packages_are_read_off_monikers() {
    assert_eq!(
        package_from_moniker("scip-typescript npm left-pad 1.0.0 `index.d.ts`/pad()."),
        Some("left-pad".to_string())
    );
    assert_eq!(package_from_moniker("short"), None);
}

#[test]
fn a_site_maps_to_the_node_that_the_index_names() {
    let sources = vec![SourceText { path: "src/m.ts".into(), text: "é(); parse();\n".into() }];
    let scip = ScipTable {
        entries: vec![ScipEntry {
            file: "src/m.ts".into(),
            position: Position { line: 0, character: 5 },
            target: ResolvedTarget {
                moniker: "scip-typescript npm pkg 1.0.0 src/`lib.ts`/parse().".into(),
                is_external: false,
                def_file: Some("src/lib.ts".into()),
                def_position: Some(Position { line: 2, character: 16 }),
            },
        }],
    };
    let files = overloads();
    let resolver = SiteResolver::new(&scip, &sources, "t", &files);
    // The callee stands at byte six, which is unit five.
    assert_eq!(
        resolver.resolve_site("src/m.ts", 0, 6),
        Some(MappedTarget::Node(t_uid("src/lib.ts", "parse")))
    );
    assert_eq!(resolver.resolve_site("src/m.ts", 0, 0), None);
    assert_eq!(resolver.resolve_site("src/other.ts", 0, 6), None);
}
