use redline::nav::index::progress::{publishes_progress, PROGRESS_STEP};
use redline::nav::index::{
    build_index, enclosing_symbol, refresh_in_place, ChangedFile, FieldLocation, ImplKind, ImplMethod,
    LocalBinding, RustTables, StructField, Symbol, SymbolIndex, TraitImplLocation,
};
use redline::nav::keymap::KeyMap;

fn sym(name: &str, kind: &str, line: usize, end_line: usize, start_byte: usize) -> Symbol {
    Symbol {
        name: name.to_string(),
        kind: kind.to_string(),
        line,
        start_byte,
        end_byte: start_byte + 10,
        end_line,
    }
}

/// The outline of `mod outer {\n    fn f() {\n        g()\n    }\n}\n`:
/// `mod outer` spans lines 0..4, `fn f` lines 1..3.
fn nested_outline() -> Vec<Symbol> {
    vec![sym("outer", "module", 0, 4, 0), sym("f", "function", 1, 3, 16)]
}

#[test]
fn index_enclosing_symbol_picks_innermost() {
    let syms = nested_outline();
    let f_line = 2; // "g()"
    let enc = enclosing_symbol(&syms, f_line).expect("enclosing at line 2");
    assert_eq!(enc.name, "f", "innermost is the function, got {enc:?}");
    // Line 0 is the mod's own line (the fn starts at line 1).
    let enc_mod = enclosing_symbol(&syms, 0).expect("enclosing at line 0");
    assert_eq!(enc_mod.name, "outer");
    // Outside everything.
    assert!(enclosing_symbol(&syms, 99).is_none());
}

#[test]
fn mod_enclosing_symbol_picks_innermost() {
    let syms = nested_outline();
    let enc = enclosing_symbol(&syms, 2).expect("enclosing at line 2");
    assert_eq!(enc.name, "f", "innermost is the function, got {enc:?}");
    let enc_mod = enclosing_symbol(&syms, 0).expect("enclosing at line 0");
    assert_eq!(enc_mod.name, "outer");
    assert!(enclosing_symbol(&syms, 99).is_none());
}

#[test]
fn equal_spans_prefer_the_later_start() {
    let syms = vec![sym("a", "function", 0, 2, 0), sym("b", "function", 1, 3, 5)];
    assert_eq!(enclosing_symbol(&syms, 2).map(|s| s.name.as_str()), Some("b"));
    assert_eq!(enclosing_symbol(&syms, 0).map(|s| s.name.as_str()), Some("a"));
    assert!(enclosing_symbol(&[], 0).is_none());
}

/// `mod a { pub fn target() {} }\nmod b { pub fn target() {} }\n`: two
/// `mod` items and two same-named functions in one file.
fn duplicate_outline() -> Vec<Symbol> {
    vec![
        sym("a", "module", 0, 0, 0),
        sym("target", "function", 0, 0, 8),
        sym("b", "module", 1, 1, 29),
        sym("target", "function", 1, 1, 37),
    ]
}

#[test]
fn index_same_file_duplicate_names_preserved() {
    let syms = duplicate_outline();
    let targets: Vec<_> = syms.iter().filter(|s| s.name == "target").collect();
    assert_eq!(targets.len(), 2, "two `target` definitions: {syms:?}");
    let mut idx = SymbolIndex::new();
    idx.set_file("dup.rs", syms);
    let defs = idx.definitions_of("target");
    assert_eq!(defs.len(), 2, "both same-file duplicates preserved: {defs:?}");
    assert_eq!(idx.definition_count("target"), 1, "one file defines `target`");
    assert_ne!(defs[0].symbol.line, defs[1].symbol.line);
}

#[test]
fn mod_same_file_duplicate_names_preserved() {
    let mut idx = SymbolIndex::new();
    idx.set_file("dup.rs", duplicate_outline());
    let defs = idx.definitions_of("target");
    assert_eq!(defs.len(), 2, "both same-file duplicates preserved: {defs:?}");
    assert_eq!(idx.definition_count("target"), 1, "one file defines `target`");
    assert_ne!(defs[0].symbol.line, defs[1].symbol.line);
    assert_eq!(idx.total(), 4);
}

#[test]
fn symbol_index_finds_definitions() {
    let mut idx = SymbolIndex::new();
    let s = Symbol {
        name: "foo".into(),
        kind: "function".into(),
        line: 3,
        start_byte: 0,
        end_byte: 10,
        end_line: 3,
    };
    idx.set_file("a.rs", vec![s.clone()]);
    idx.set_file("b.rs", vec![s.clone()]);

    let defs = idx.definitions_of("foo");
    assert_eq!(defs.len(), 2, "foo defined in a.rs and b.rs");
    assert_eq!(defs[0].file, "a.rs");
    assert_eq!(defs[1].file, "b.rs");
    assert_eq!(idx.outline("a.rs").len(), 1);
    assert_eq!(idx.all_locations().len(), 2);
    assert_eq!(idx.file_count(), 2);
    assert!(idx.definitions_of("missing").is_empty());
}

#[test]
fn set_file_reports_change_and_keeps_the_name_map() {
    let mut idx = SymbolIndex::new();
    assert!(idx.set_file("lib.rs", vec![sym("target", "function", 0, 0, 0), sym("other", "function", 1, 1, 20)]));
    assert!(!idx.set_file("lib.rs", vec![sym("target", "function", 0, 0, 0), sym("other", "function", 1, 1, 20)]));
    assert_eq!(idx.total(), 2);
    assert!(idx.set_file("lib.rs", vec![sym("target", "function", 0, 0, 0), sym("renamed", "function", 1, 1, 20)]));
    assert_eq!(idx.definition_count("other"), 0);
    assert_eq!(idx.definition_count("renamed"), 1);
    assert_eq!(idx.total(), 2);
    // An empty outline removes the file.
    assert!(idx.set_file("lib.rs", Vec::new()));
    assert!(!idx.has("lib.rs"));
    assert_eq!(idx.total(), 0);
    assert!(idx.definitions_of("target").is_empty());
}

#[test]
fn remove_file_drops_outline_and_names() {
    let mut idx = SymbolIndex::new();
    idx.set_file("notes.md", vec![sym("Title", "heading", 0, 4, 0), sym("Sub", "heading", 2, 4, 9)]);
    idx.set_file("lib.rs", vec![sym("Title", "function", 0, 0, 0)]);
    assert_eq!(idx.definition_count("Title"), 2);
    assert!(idx.remove_file("notes.md"));
    assert!(!idx.has("notes.md"));
    assert_eq!(idx.definition_count("Title"), 1);
    assert_eq!(idx.definition_count("Sub"), 0);
    assert_eq!(idx.total(), 1);
    assert!(!idx.remove_file("notes.md"));
}

#[test]
fn locations_are_ordered_by_file_line_name() {
    let mut idx = SymbolIndex::new();
    idx.set_file("b.rs", vec![sym("z", "function", 5, 5, 0), sym("a", "function", 5, 5, 10)]);
    idx.set_file("a.rs", vec![sym("m", "function", 9, 9, 0), sym("m", "function", 2, 2, 30)]);
    let all: Vec<(String, usize, String)> = idx
        .all_locations()
        .into_iter()
        .map(|l| (l.file, l.symbol.line, l.symbol.name))
        .collect();
    assert_eq!(
        all,
        vec![
            ("a.rs".to_string(), 2, "m".to_string()),
            ("a.rs".to_string(), 9, "m".to_string()),
            ("b.rs".to_string(), 5, "a".to_string()),
            ("b.rs".to_string(), 5, "z".to_string()),
        ]
    );
    let ms: Vec<usize> = idx.definitions_of("m").iter().map(|l| l.symbol.line).collect();
    assert_eq!(ms, vec![2, 9]);
}

fn field(name: &str, line: usize, start_byte: usize) -> StructField {
    StructField { field: name.to_string(), line, start_byte }
}

fn fields_table(entries: Vec<(&str, Vec<StructField>)>) -> RustTables {
    let mut t = RustTables::new();
    for (st, fs) in entries {
        t.fields.insert(st.to_string(), fs);
    }
    t
}

fn method(name: &str, line: usize, impl_line: usize, kind: ImplKind) -> ImplMethod {
    ImplMethod { method: name.to_string(), line, impl_line, start_byte: 0, kind }
}

#[test]
fn rust_tables_support_cross_file_field_lookup() {
    let mut idx = SymbolIndex::new();
    idx.set_file_tables("src/point.rs", fields_table(vec![("Point", vec![field("x", 0, 23), field("y", 0, 35)])]));
    let mut ops = RustTables::new();
    ops.impls.insert("Point".to_string(), vec![method("x", 2, 1, ImplKind::Inherent)]);
    idx.set_file_tables("src/ops.rs", ops);
    assert_eq!(
        idx.field_locations("Point", "x"),
        vec![FieldLocation { file: "src/point.rs".into(), line: 0, start_byte: 23 }]
    );
    assert!(idx.field_locations("Point", "missing").is_empty());
    assert!(idx.field_locations("Other", "x").is_empty());
    let ops_tables = idx.tables("src/ops.rs").expect("ops.rs has tables");
    assert_eq!(ops_tables.impls.get("Point"), Some(&vec![method("x", 2, 1, ImplKind::Inherent)]));
    assert!(idx.tables("src/none.rs").is_none());
}

#[test]
fn rust_tables_same_content_refresh_keeps_field_locations() {
    let mut idx = SymbolIndex::new();
    let t = || fields_table(vec![("Point", vec![field("x", 0, 23)])]);
    assert!(idx.set_file_tables("src/point.rs", t()));
    assert!(!idx.set_file_tables("src/point.rs", t()), "same content: no change");
    assert_eq!(
        idx.field_locations("Point", "x"),
        vec![FieldLocation { file: "src/point.rs".into(), line: 0, start_byte: 23 }],
        "a same-content refresh must not strip the field map"
    );
    assert!(idx.tables("src/point.rs").is_some());
    assert!(idx.set_file_tables("src/point.rs", fields_table(vec![("Point", vec![field("x", 0, 23), field("y", 0, 35)])])));
    assert_eq!(
        idx.field_locations("Point", "y"),
        vec![FieldLocation { file: "src/point.rs".into(), line: 0, start_byte: 35 }]
    );
}

#[test]
fn rust_tables_bindings_only_entry_is_stored() {
    let mut idx = SymbolIndex::new();
    let bindings = || {
        let mut t = RustTables::new();
        t.bindings.push(LocalBinding { binding: "p".into(), bound_type: "Pt".into(), let_byte: 16, name_byte: 20 });
        t
    };
    assert!(idx.set_file_tables("src/lib.rs", bindings()));
    assert_eq!(idx.tables("src/lib.rs").expect("bindings-only entry").bindings.len(), 1);
    assert!(!idx.set_file_tables("src/lib.rs", bindings()));
    assert!(idx.tables("src/lib.rs").is_some());
    // Empty tables remove the entry.
    assert!(idx.set_file_tables("src/lib.rs", RustTables::new()));
    assert!(idx.tables("src/lib.rs").is_none());
    assert!(!idx.set_file_tables("src/lib.rs", RustTables::new()));
}

#[test]
fn rust_tables_refresh_and_remove_with_the_file() {
    let mut idx = SymbolIndex::new();
    idx.set_file("src/point.rs", vec![sym("Point", "struct", 0, 0, 0)]);
    idx.set_file_tables("src/point.rs", fields_table(vec![("Point", vec![field("x", 0, 23)])]));
    idx.set_file_tables("src/point.rs", fields_table(vec![("Point", vec![field("xx", 0, 23)])]));
    assert!(idx.field_locations("Point", "x").is_empty(), "stale field dropped");
    assert_eq!(
        idx.field_locations("Point", "xx"),
        vec![FieldLocation { file: "src/point.rs".into(), line: 0, start_byte: 23 }]
    );
    assert!(idx.remove_file("src/point.rs"));
    assert!(idx.tables("src/point.rs").is_none());
    assert!(idx.field_locations("Point", "xx").is_empty());
}

#[test]
fn field_start_byte_two_structs_one_line_is_the_minimum_byte() {
    let mut idx = SymbolIndex::new();
    idx.set_file_tables(
        "src/duo.rs",
        fields_table(vec![("A", vec![field("x", 0, 19)]), ("B", vec![field("x", 0, 47)])]),
    );
    assert_eq!(
        idx.field_locations("A", "x"),
        vec![FieldLocation { file: "src/duo.rs".into(), line: 0, start_byte: 19 }]
    );
    assert_eq!(
        idx.field_locations("B", "x"),
        vec![FieldLocation { file: "src/duo.rs".into(), line: 0, start_byte: 47 }]
    );
    assert_eq!(idx.field_start_byte("src/duo.rs", 0, "x"), Some(19));
    assert_eq!(idx.field_start_byte("src/duo.rs", 1, "x"), None);
    assert_eq!(idx.field_start_byte("src/duo.rs", 0, "nope"), None);
}

#[test]
fn trait_map_supports_trait_impl_lookup_across_files() {
    let mut idx = SymbolIndex::new();
    let mut alpha = RustTables::new();
    alpha.impls.insert(
        "A".into(),
        vec![method("fmt", 2, 1, ImplKind::Trait("std::fmt::Display".into()))],
    );
    idx.set_file_tables("src/alpha.rs", alpha);
    let mut beta = RustTables::new();
    beta.impls.insert("B".into(), vec![
        method("fmt", 3, 2, ImplKind::Trait("Display".into())),
        method("own", 6, 5, ImplKind::Inherent),
    ]);
    idx.set_file_tables("src/beta.rs", beta);
    assert_eq!(
        idx.trait_impl_locations("std::fmt::Display"),
        vec![TraitImplLocation { file: "src/alpha.rs".into(), impl_line: 1, self_type: "A".into() }]
    );
    assert_eq!(
        idx.trait_impl_locations("Display"),
        vec![TraitImplLocation { file: "src/beta.rs".into(), impl_line: 2, self_type: "B".into() }]
    );
    assert!(idx.trait_impl_locations("B").is_empty());
    assert!(idx.trait_impl_locations("Other").is_empty());
}

#[test]
fn trait_impl_block_with_many_methods_appears_once() {
    let mut idx = SymbolIndex::new();
    let mut t = RustTables::new();
    t.impls.insert("S".into(), vec![
        method("a", 2, 1, ImplKind::Trait("Tr".into())),
        method("b", 3, 1, ImplKind::Trait("Tr".into())),
    ]);
    idx.set_file_tables("s.rs", t);
    assert_eq!(
        idx.trait_impl_locations("Tr"),
        vec![TraitImplLocation { file: "s.rs".into(), impl_line: 1, self_type: "S".into() }]
    );
    // Without an outline the file is not removed, and its tables stay.
    assert!(!idx.remove_file("s.rs"));
    assert_eq!(idx.trait_impl_locations("Tr").len(), 1);
    idx.set_file("s.rs", vec![sym("S", "struct", 0, 0, 0)]);
    assert!(idx.remove_file("s.rs"));
    assert!(idx.trait_impl_locations("Tr").is_empty());
}

#[test]
fn build_and_refresh_touch_only_changed_files() {
    let entries = vec![
        ("src/lib.rs".to_string(), vec![sym("target", "function", 0, 0, 0), sym("other", "function", 1, 1, 20)], RustTables::new()),
        ("src/notes.md".to_string(), vec![sym("Title", "heading", 0, 4, 0)], RustTables::new()),
        ("src/readme.txt".to_string(), Vec::new(), RustTables::new()),
    ];
    let mut idx = build_index(entries);
    assert_eq!(idx.file_count(), 2);
    assert!(!idx.has("src/readme.txt"), "plain text: no outline");
    let notes_before = idx.outline("src/notes.md").to_vec();
    let changed = vec![
        ChangedFile {
            path: "/proj/src/lib.rs".to_string(),
            parsed: Some((vec![sym("target", "function", 0, 0, 0), sym("renamed", "function", 1, 1, 20)], RustTables::new())),
        },
        ChangedFile { path: "/elsewhere/x.rs".to_string(), parsed: None },
    ];
    let touched = refresh_in_place("/proj", changed, &mut idx);
    assert_eq!(touched, vec!["src/lib.rs".to_string()]);
    assert_eq!(idx.definition_count("renamed"), 1);
    assert_eq!(idx.definition_count("other"), 0);
    assert_eq!(idx.outline("src/notes.md"), notes_before.as_slice());
    let deleted = vec![ChangedFile { path: "/proj/src/notes.md".to_string(), parsed: None }];
    let touched = refresh_in_place("/proj", deleted, &mut idx);
    assert_eq!(touched, vec!["src/notes.md".to_string()]);
    assert!(!idx.has("src/notes.md"));
    assert_eq!(idx.definition_count("Title"), 0);
}

#[test]
fn keymap_insert_get_remove() {
    let mut m: KeyMap<usize> = KeyMap::new();
    assert!(m.is_empty());
    m.insert("a".into(), 1);
    m.insert("b".into(), 2);
    m.insert("a".into(), 3);
    assert_eq!(m.len(), 2);
    assert_eq!(m.get("a"), Some(&3));
    assert_eq!(m.remove("a"), Some(3));
    assert_eq!(m.get("a"), None);
    assert_eq!(m.remove("a"), None);
    assert!(m.contains_key("b"));
}

#[test]
fn progress_published_every_step() {
    assert_eq!(PROGRESS_STEP, 25);
    assert!(publishes_progress(0));
    assert!(!publishes_progress(1));
    assert!(!publishes_progress(24));
    assert!(publishes_progress(25));
    assert!(!publishes_progress(26));
    assert!(publishes_progress(50));
}

#[test]
fn set_file_empty_outline_on_absent_file_is_no_change() {
    let mut idx = SymbolIndex::new();
    assert!(!idx.set_file("a.rs", Vec::new()));
    assert!(!idx.has("a.rs"));
    assert_eq!(idx.total(), 0);
}

#[test]
fn resetting_held_tables_keeps_every_lookup() {
    let mut idx = SymbolIndex::new();
    let mut t = fields_table(vec![("Point", vec![field("x", 0, 23), field("y", 1, 8)])]);
    t.impls.insert("Point".into(), vec![method("fmt", 4, 3, ImplKind::Trait("Display".into()))]);
    assert!(idx.set_file_tables("src/point.rs", t));
    let fx = idx.field_locations("Point", "x");
    let fy = idx.field_locations("Point", "y");
    let tr = idx.trait_impl_locations("Display");
    let held = idx.tables("src/point.rs").expect("tables held").duplicate();
    assert!(!idx.set_file_tables("src/point.rs", held), "same tables: no change");
    assert_eq!(idx.field_locations("Point", "x"), fx);
    assert_eq!(idx.field_locations("Point", "y"), fy);
    assert_eq!(idx.trait_impl_locations("Display"), tr);
    assert_eq!(tr, vec![TraitImplLocation { file: "src/point.rs".into(), impl_line: 3, self_type: "Point".into() }]);
}

#[test]
fn field_locations_ordered_by_file_line_and_start_byte() {
    let mut idx = SymbolIndex::new();
    idx.set_file_tables("src/b.rs", fields_table(vec![("P", vec![field("x", 2, 40), field("x", 2, 12)])]));
    idx.set_file_tables("src/a.rs", fields_table(vec![("P", vec![field("x", 7, 3), field("x", 1, 90)])]));
    assert_eq!(
        idx.field_locations("P", "x"),
        vec![
            FieldLocation { file: "src/a.rs".into(), line: 1, start_byte: 90 },
            FieldLocation { file: "src/a.rs".into(), line: 7, start_byte: 3 },
            FieldLocation { file: "src/b.rs".into(), line: 2, start_byte: 12 },
            FieldLocation { file: "src/b.rs".into(), line: 2, start_byte: 40 },
        ]
    );
}

#[test]
fn definitions_are_all_locations_with_that_name() {
    let mut idx = SymbolIndex::new();
    idx.set_file("src/a.rs", vec![sym("new", "function", 1, 3, 0), sym("run", "function", 5, 9, 40)]);
    idx.set_file("src/b.rs", vec![sym("new", "function", 2, 4, 10), sym("new", "function", 8, 9, 70)]);
    // Two definitions of one name on one line keep their outline order.
    idx.set_file("src/c.rs", vec![sym("new", "method", 3, 3, 50), sym("new", "function", 3, 3, 20)]);
    let defs = idx.definitions_of("new");
    let filtered: Vec<_> = idx.all_locations().into_iter().filter(|l| l.symbol.name == "new").collect();
    assert_eq!(defs, filtered);
    assert_eq!(defs.len(), 5);
    assert_eq!(
        defs.iter().map(|l| (l.file.as_str(), l.symbol.line, l.symbol.start_byte)).collect::<Vec<_>>(),
        vec![("src/a.rs", 1, 0), ("src/b.rs", 2, 10), ("src/b.rs", 8, 70), ("src/c.rs", 3, 50), ("src/c.rs", 3, 20)]
    );
    assert_eq!(idx.definition_count("new"), 3);
    assert_eq!(idx.definition_count("run"), 1);
    assert_eq!(idx.definition_count("gone"), 0);
    assert_eq!(idx.total(), 6);
}
