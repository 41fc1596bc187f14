use redline::search::rg::{
    glob_rule, is_word_boundary, needs_entry_filters, search_matcher, type_globs,
    unknown_type_message, unusable_type_message, SearchConfig, SearchEvent, StreamSink,
};

#[test]
fn sink_word_boundary_is_unicode_aware() {
    // Full `café` at line edges: boundary.
    assert!(is_word_boundary("café", 0, 4), "line edges around café");
    // `caf` inside `café`: the following `é` is a WORD char → NOT a
    // boundary.
    assert!(!is_word_boundary("café", 0, 3), "`é` after `caf` blocks the boundary");
    // `é` at the tail of `café`: the preceding `f` is a word char.
    assert!(!is_word_boundary("café", 3, 1), "`f` before `é` blocks the boundary");
    // A genuine separator still gives a boundary.
    assert!(is_word_boundary("caf é", 0, 3), "space after `caf` is a boundary");
    // CJK: the same rule (Lo chars are alphanumeric).
    assert!(!is_word_boundary("漢字", 0, 3), "CJK `字` after `漢` blocks the boundary");
    assert!(is_word_boundary("漢 字", 0, 3), "space after CJK char is a boundary");
}

#[test]
fn word_boundary_ascii_cases() {
    assert!(is_word_boundary("-target-", 1, 6));
    assert!(!is_word_boundary("mytarget", 2, 6));
    assert!(!is_word_boundary("target2", 0, 6));
    assert!(!is_word_boundary("_x", 1, 1), "underscore is a word char");
}

fn sink(literal: Option<&str>, word: bool, ranges: Option<Vec<std::ops::Range<usize>>>) -> StreamSink {
    StreamSink {
        file: "src/a.rs".into(),
        gen_id: 7,
        literal: literal.map(|s| s.to_string()),
        word,
        ranges,
        hits: 0,
    }
}

fn hit(ev: &Option<SearchEvent>) -> Option<(u64, Option<u64>, String)> {
    match ev {
        Some(SearchEvent::Hit { line_no, col, line, generation, file }) => {
            assert_eq!(*generation, 7);
            assert_eq!(file, "src/a.rs");
            Some((*line_no, *col, line.clone()))
        }
        _ => None,
    }
}

#[test]
fn sink_reports_literal_column_and_strips_terminator() {
    let mut s = sink(Some("target"), true, None);
    let step = s.matched(false, Some(3), 0, b"let mytarget = target;\r\n").unwrap();
    assert!(step.keep_going);
    assert_eq!(hit(&step.event), Some((3, Some(15), "let mytarget = target;".to_string())));
    assert_eq!(s.hits, 1);
}

#[test]
fn sink_column_is_in_bytes() {
    let mut s = sink(Some("x"), false, None);
    let step = s.matched(false, None, 0, "é x\n".as_bytes()).unwrap();
    assert_eq!(hit(&step.event), Some((0, Some(3), "é x".to_string())));
}

#[test]
fn sink_drops_line_when_every_occurrence_is_filtered() {
    // `target` at absolute bytes 100 and 107; both in filtered ranges.
    let mut s = sink(Some("target"), false, Some(vec![90..101, 105..110]));
    let step = s.matched(false, Some(1), 100, b"target target\n").unwrap();
    assert!(step.keep_going);
    assert!(step.event.is_none());
    assert_eq!(s.hits, 0);
    // The second occurrence survives when only the first is filtered.
    let mut s = sink(Some("target"), false, Some(vec![90..101]));
    let step = s.matched(false, Some(1), 100, b"target target\n").unwrap();
    assert_eq!(hit(&step.event).map(|h| h.1), Some(Some(7)));
}

#[test]
fn sink_without_surviving_word_occurrence_reports_no_column() {
    let mut s = sink(Some("caf"), true, None);
    let step = s.matched(false, Some(2), 0, "café\n".as_bytes()).unwrap();
    assert_eq!(hit(&step.event), Some((2, None, "café".to_string())));
}

#[test]
fn sink_regex_search_has_no_column_and_cancel_stops() {
    let mut s = sink(None, false, None);
    let step = s.matched(false, Some(4), 0, b"anything\n").unwrap();
    assert_eq!(hit(&step.event), Some((4, None, "anything".to_string())));
    let step = s.matched(true, Some(5), 0, b"more\n").unwrap();
    assert!(!step.keep_going);
    assert!(step.event.is_none());
    assert_eq!(s.hits, 1);
    match s.finish() {
        SearchEvent::FileDone { file, hits, generation } => {
            assert_eq!((file.as_str(), hits, generation), ("src/a.rs", 1, 7));
        }
        other => panic!("unexpected {other:?}"),
    }
}

#[test]
fn sink_empty_literal_with_no_counting_position_is_refused() {
    let mut s = sink(Some(""), true, None);
    assert!(s.matched(false, Some(1), 0, b"ab\n").is_none());
    let mut s = sink(Some(""), false, None);
    let step = s.matched(false, Some(1), 0, b"ab\n").unwrap();
    assert_eq!(hit(&step.event).map(|h| h.1), Some(Some(0)));
}

#[test]
fn event_generation_of_every_variant() {
    let evs = vec![
        SearchEvent::Hit { file: "f".into(), line_no: 1, col: None, line: "l".into(), generation: 1 },
        SearchEvent::FileDone { file: "f".into(), hits: 2, generation: 2 },
        SearchEvent::Finished { cancelled: false, generation: 3 },
        SearchEvent::Error { message: "m".into(), generation: 4 },
    ];
    let gens: Vec<usize> = evs.iter().map(|e| e.generation()).collect();
    assert_eq!(gens, vec![1, 2, 3, 4]);
}

#[test]
fn type_glob_table() {
    assert_eq!(type_globs("rust"), Some(vec!["*.rs"]));
    assert_eq!(type_globs("cpp"), Some(vec!["*.cpp", "*.cc", "*.hpp", "*.hh"]));
    assert_eq!(type_globs("yaml"), Some(vec!["*.yml", "*.yaml"]));
    assert_eq!(type_globs("cobol"), None);
}

#[test]
fn glob_rules_and_entry_filters() {
    assert_eq!(glob_rule(None), None);
    assert_eq!(glob_rule(Some("")), None);
    let keep = glob_rule(Some("*.rs")).unwrap();
    assert!(!keep.negate);
    assert_eq!(keep.pattern, "*.rs");
    assert!(keep.drops(false) && !keep.drops(true));
    let drop = glob_rule(Some("!*.md")).unwrap();
    assert!(drop.negate);
    assert_eq!(drop.pattern, "*.md");
    assert!(drop.drops(true) && !drop.drops(false));
    assert!(needs_entry_filters(false, None));
    assert!(!needs_entry_filters(true, None));
    assert!(!needs_entry_filters(true, Some("")));
    assert!(needs_entry_filters(true, Some("*.rs")));
}

#[test]
fn type_error_messages() {
    assert_eq!(unknown_type_message("cobol"), "unknown file type `cobol`");
    assert_eq!(unusable_type_message("x", None), "file type `x` is not usable");
    assert_eq!(unusable_type_message("x", Some("bad")), "file type `x` is not usable: bad");
}

fn config(pattern: &str, fixed: bool) -> SearchConfig {
    SearchConfig {
        root: ".".into(),
        pattern: pattern.into(),
        word: false,
        fixed,
        case_smart: true,
        case_insensitive: false,
        glob: None,
        file_type: None,
        filter: false,
    }
}

#[test]
fn search_matcher_builds_or_reports_the_pattern_error() {
    assert!(search_matcher(&config("fo+", false), 3).is_ok());
    // An unbalanced group is no regex, but fine as a literal.
    assert!(search_matcher(&config("a(", true), 3).is_ok());
    match search_matcher(&config("a(", false), 3) {
        Err(SearchEvent::Error { message, generation }) => {
            assert!(!message.is_empty());
            assert_eq!(generation, 3);
        }
        Err(other) => panic!("{other:?}"),
        Ok(_) => panic!("`a(` is no valid regex"),
    }
}
