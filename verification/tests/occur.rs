use redline::search::occur::{occur_events, occur_lines};
use redline::search::rg::SearchEvent;

/// The events an occur search of `text` for `pattern` streams.
fn occur(display_name: &str, text: &str, pattern: &str, cancelled: bool) -> Vec<SearchEvent> {
    occur_events(display_name.to_string(), occur_lines(pattern, text), cancelled, 0)
}

fn hit_lines(events: &[SearchEvent]) -> Vec<u64> {
    events
        .iter()
        .filter_map(|ev| match ev {
            SearchEvent::Hit { line_no, .. } => Some(*line_no),
            _ => None,
        })
        .collect()
}

#[test]
fn occur_lists_all_in_file_matches() {
    let text = "foo world\nbar foo\nfoo again\nbaz\n".to_string();
    let events = occur("src/t.rs", &text, "foo", false);
    let hit_lines = hit_lines(&events);
    assert_eq!(hit_lines, vec![1, 2, 3], "all in-file matches: {hit_lines:?}");
    let file_done = events
        .iter()
        .find_map(|ev| match ev {
            SearchEvent::FileDone { hits, .. } => Some(*hits),
            _ => None,
        })
        .expect("a FileDone event");
    assert_eq!(file_done, 3, "group count = 3");
}

#[test]
fn occur_smart_case() {
    let text = "Hello there\nHELLO again\n".to_string();
    let events = occur("*scratch*", &text, "hello", false);
    let n = events.iter().filter(|ev| matches!(ev, SearchEvent::Hit { .. })).count();
    assert_eq!(n, 2, "smart case matches both: {events:?}");
}

#[test]
fn occur_regex_pattern() {
    let text = "a1\nb2\na3\n".to_string();
    let events = occur("x.txt", &text, "a\\d", false);
    let hit_lines = hit_lines(&events);
    assert_eq!(hit_lines, vec![1, 3], "regex hits: {hit_lines:?}");
}

#[test]
fn occur_lines_returns_numbered_matching_lines() {
    let found = occur_lines("foo", "foo world\nbar foo\nbaz\n").unwrap();
    assert_eq!(found, vec![(1, b"foo world\n".to_vec()), (2, b"bar foo\n".to_vec())]);
    // An upper-case letter makes the search case sensitive.
    assert_eq!(occur_lines("Foo", "foo\nFoo\n").unwrap(), vec![(2, b"Foo\n".to_vec())]);
    assert!(occur_lines("zzz", "foo\n").unwrap().is_empty());
}

#[test]
fn occur_events_exact_sequence() {
    let events = occur("src/t.rs", "x foo\r\ny\nfoo\n", "foo", false);
    assert_eq!(events.len(), 4);
    match &events[0] {
        SearchEvent::Hit { file, line_no, col, line, generation } => {
            assert_eq!((file.as_str(), *line_no, *col, line.as_str(), *generation), ("src/t.rs", 1, None, "x foo", 0));
        }
        other => panic!("{other:?}"),
    }
    match &events[1] {
        SearchEvent::Hit { line_no, line, .. } => assert_eq!((*line_no, line.as_str()), (3, "foo")),
        other => panic!("{other:?}"),
    }
    assert!(matches!(&events[2], SearchEvent::FileDone { file, hits: 2, generation: 0 } if file == "src/t.rs"));
    assert!(matches!(&events[3], SearchEvent::Finished { cancelled: false, generation: 0 }));
}

#[test]
fn occur_invalid_regex_is_one_error_event() {
    let found = occur_lines("(", "foo\n");
    assert!(found.is_err());
    let events = occur_events("b.rs".into(), found, false, 7);
    assert_eq!(events.len(), 1);
    match &events[0] {
        SearchEvent::Error { message, generation } => {
            assert!(!message.is_empty());
            assert_eq!(*generation, 7);
        }
        other => panic!("{other:?}"),
    }
}

#[test]
fn occur_cancelled_lists_no_hits() {
    let events = occur("a.rs", "foo\nfoo\n", "foo", true);
    assert_eq!(events.len(), 2);
    assert!(matches!(&events[0], SearchEvent::FileDone { hits: 0, .. }));
    assert!(matches!(&events[1], SearchEvent::Finished { cancelled: true, .. }));
}
