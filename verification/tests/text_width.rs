use redline::model::text_width::{
    char_display_width, char_index_to_display_col, display_col_to_char_index, display_width,
};

#[test]
fn display_width_counts_wide_and_combining() {
    assert_eq!(display_width("abcd"), 4);
    assert_eq!(display_width(""), 0);
    assert_eq!(display_width("中中"), 4);
    assert_eq!(display_width("a中b"), 4);
    // Combining marks add no cell (e + U+0301 = 1 cell).
    assert_eq!(display_width("e\u{301}"), 1);
    assert_eq!(display_width("CJK: abcd中 efgh"), 16);
}

#[test]
fn char_index_to_display_col_ascii() {
    assert_eq!(char_index_to_display_col("abcd", 0), 0);
    assert_eq!(char_index_to_display_col("abcd", 3), 3);
    assert_eq!(char_index_to_display_col("abcd", 99), 4, "clamps to EOL");
}

#[test]
fn char_index_to_display_col_wide() {
    // 中 is char 9 and occupies display cols 9-10.
    let line = "CJK: abcd中 efgh";
    assert_eq!(char_index_to_display_col(line, 0), 0);
    assert_eq!(char_index_to_display_col(line, 9), 9);
    assert_eq!(char_index_to_display_col(line, 10), 11, "after the wide char");
    assert_eq!(char_index_to_display_col(line, 13), 14, "'g'");
    assert_eq!(char_index_to_display_col(line, 15), 16, "EOL");
}

#[test]
fn char_index_to_display_col_combining() {
    // e, combining acute (width 0), x: the combining char shares its
    // base's cell.
    let line = "e\u{301}x";
    assert_eq!(char_index_to_display_col(line, 1), 1);
    assert_eq!(char_index_to_display_col(line, 2), 1);
    assert_eq!(char_index_to_display_col(line, 3), 2);
}

#[test]
fn display_col_to_char_index_ascii() {
    assert_eq!(display_col_to_char_index("abcd", 0), 0);
    assert_eq!(display_col_to_char_index("abcd", 3), 3);
    assert_eq!(display_col_to_char_index("abcd", 4), 4, "at width → EOL");
    assert_eq!(display_col_to_char_index("abcd", 99), 4, "past width → EOL");
}

#[test]
fn display_col_to_char_index_wide() {
    // 中 occupies display cols 9-10 (char 9); 'g' (char 13) sits at
    // display col 14.
    let line = "CJK: abcd中 efgh";
    assert_eq!(display_col_to_char_index(line, 0), 0);
    assert_eq!(display_col_to_char_index(line, 8), 8);
    assert_eq!(display_col_to_char_index(line, 9), 9, "inside 中 (first cell)");
    assert_eq!(display_col_to_char_index(line, 10), 9, "inside 中 (second cell)");
    assert_eq!(display_col_to_char_index(line, 11), 10, "space");
    assert_eq!(display_col_to_char_index(line, 14), 13, "'g'");
    assert_eq!(display_col_to_char_index(line, 16), 15, "at width → EOL");
}

#[test]
fn width_table_pins_022_delta_and_stable_anchors() {
    // One anchor per reclassified width bucket of the width table.
    assert_eq!(char_display_width('\u{2630}'), 2, "1->2: U+2630 (Neutral -> Wide)");
    assert_eq!(char_display_width('\u{1acf}'), 0, "1->0: U+1ACF (now combining)");
    assert_eq!(char_display_width('\u{16ff0}'), 0, "2->0: U+16FF0 Kanbun pou (now zero-width)");
    assert_eq!(char_display_width('\u{1171e}'), 1, "0->1: U+1171E (now spacing)");
    // Stable anchors: the Ambiguous class stays 1-cell in the non-CJK
    // table, and the narrow / wide / emoji / combining anchors stay put.
    let ambiguous: [(char, &str); 3] = [
        ('\u{00a9}', "© COPYRIGHT SIGN"),
        ('\u{0100}', "Ā A WITH MACRON"),
        ('\u{2261}', "≡ IDENTICAL TO"),
    ];
    for (c, name) in ambiguous {
        assert_eq!(char_display_width(c), 1, "{name} stays 1 cell in the non-CJK table");
    }
    assert_eq!(char_display_width('a'), 1, "narrow stays 1");
    assert_eq!(char_display_width('\u{4e2d}'), 2, "中 stays 2");
    assert_eq!(char_display_width('\u{1f980}'), 2, "🦀 stays 2");
    assert_eq!(char_display_width('\u{0301}'), 0, "combining acute stays 0");
}

#[test]
fn control_chars_count_one_cell() {
    assert_eq!(char_display_width('\u{7}'), 1);
    assert_eq!(display_width("a\tb"), 3);
}

#[test]
fn every_column_of_a_char_maps_back_to_it() {
    let line = "a中e\u{301}x";
    for i in 0..5 {
        let start = char_index_to_display_col(line, i);
        let end = char_index_to_display_col(line, i + 1);
        for col in start..end {
            assert_eq!(display_col_to_char_index(line, col), i, "col {col}");
        }
    }
    assert_eq!(display_col_to_char_index(line, display_width(line)), 5);
    assert_eq!(char_index_to_display_col(line, 5), display_width(line));
}

#[test]
fn column_maps_to_the_end_exactly_past_the_width() {
    let line = "a中e\u{301}";
    let w = display_width(line);
    assert_eq!(w, 4);
    for col in 0..w {
        assert_ne!(display_col_to_char_index(line, col), 4, "col {col}");
    }
    for col in w..w + 3 {
        assert_eq!(display_col_to_char_index(line, col), 4, "col {col}");
    }
    assert_eq!(display_col_to_char_index("", 0), 0);
}
