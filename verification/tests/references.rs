use redline::search::references::{pick_symbol, references_config, symbol_under_point};

#[test]
fn symbol_under_point_multibyte_identifier() {
    // "fn café()" — the identifier spans bytes 3..8 (`café`).
    assert_eq!(symbol_under_point("fn café()", 5, |_| false), Some("café"));
    assert_eq!(symbol_under_point("fn café()", 4, |_| false), Some("café"));
    // CJK identifier: extracted whole.
    assert_eq!(symbol_under_point("(漢字)", 4, |_| false), Some("漢字"));
}

#[test]
fn symbol_under_point_prefers_point_position() {
    // `use foo::bar;`: point on `bar` (byte 10) searches `bar`, even
    // though `foo` is the known identifier.
    assert_eq!(
        symbol_under_point("use foo::bar;", 10, |id| id == "foo"),
        Some("bar")
    );
    // Point on `target`: the identifier under the point.
    assert_eq!(
        symbol_under_point("fn main() { target(); }", 13, |id| id == "target"),
        Some("target")
    );
    // Point at col 0 on the first identifier (`let` spans 0..3).
    assert_eq!(symbol_under_point("let x = 1;", 0, |_| false), Some("let"));
    // Point on a separator, before a known identifier: the nearest
    // identifier left of the point (`main` ends before the gap at 11).
    assert_eq!(
        symbol_under_point("fn main() { target(); }", 11, |id| id == "target"),
        Some("main")
    );
    // Point before the first identifier (leading space): first known
    // on the line wins, else the first identifier.
    assert_eq!(
        symbol_under_point("  fn main() { target(); }", 0, |id| id == "target"),
        Some("target")
    );
    assert_eq!(symbol_under_point("  fn main();", 0, |_| false), Some("fn"));
    // Empty line: none.
    assert_eq!(symbol_under_point("   ", 0, |_| true), None);
}

#[test]
fn known_identifier_left_of_point_wins_over_nearer_unknown() {
    // Point in the gap after `b`: `a` is known, `b` is nearer.
    assert_eq!(symbol_under_point("a + b ; c", 6, |id| id == "a"), Some("a"));
    assert_eq!(symbol_under_point("a + b ; c", 6, |_| false), Some("b"));
}

#[test]
fn pick_ranks_spans() {
    let ids = [(0, 3), (4, 5), (8, 11)];
    assert_eq!(pick_symbol(&ids, 4, &[true, false, false]), Some(1), "on the point");
    assert_eq!(pick_symbol(&ids, 6, &[true, false, false]), Some(0), "known at/before");
    assert_eq!(pick_symbol(&ids, 6, &[false, false, false]), Some(1), "nearest left");
    assert_eq!(pick_symbol(&[(2, 3), (5, 6)], 0, &[false, true]), Some(1), "first known");
    assert_eq!(pick_symbol(&[(2, 3), (5, 6)], 0, &[false, false]), Some(0), "first");
    assert_eq!(pick_symbol(&[], 0, &[]), None);
}

#[test]
fn references_config_is_fixed_word_case_sensitive_filtered() {
    let c = references_config("/p".into(), "target".into());
    assert_eq!(c.root, "/p");
    assert_eq!(c.pattern, "target");
    assert!(c.word && c.fixed && c.filter);
    assert!(!c.case_smart && !c.case_insensitive);
    assert!(c.glob.is_none() && c.file_type.is_none());
}
