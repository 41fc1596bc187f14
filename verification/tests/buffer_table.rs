use redline::model::buffer::{Buffer, BufferTable, BIG_FILE_THRESHOLD, SCRATCH_NAME};
use ropey::Rope;
use std::time::SystemTime;

fn key(path: &str) -> Option<String> {
    Some(path.to_string())
}

#[test]
fn new_table_starts_empty() {
    let t = BufferTable::new();
    assert_eq!(t.len(), 0);
    assert_eq!(t.current(), None);
    assert!(t.current_buffer().is_none());
}

#[test]
fn insert_scratch_explicitly_still_works() {
    let mut t = BufferTable::new();
    let k = t.insert(None, String::new());
    assert_eq!(k, SCRATCH_NAME.to_string());
    t.set_current(&k);
    let buf = t.current_buffer().unwrap();
    assert!(buf.path.is_none());
    assert!(buf.editable);
    assert_eq!(buf.line_count(), 1);
}

#[test]
fn insert_and_get_buffers() {
    let mut t = BufferTable::new();
    let k = t.insert(key("/p/src/a.rs"), "fn a() {}\n".into());
    assert_eq!(k, "/p/src/a.rs");
    let buf = t.get(&k).unwrap();
    assert_eq!(buf.line_text(0).as_deref(), Some("fn a() {}"));
    assert_eq!(buf.line_count(), 2);
}

#[test]
fn switching_buffers_updates_current_and_mru() {
    let mut t = BufferTable::new();
    let a = t.insert(key("/p/a.rs"), "a".into());
    let b = t.insert(key("/p/b.rs"), "b".into());
    let order: Vec<&str> = t.list().iter().map(|(k, _)| *k).collect();
    assert_eq!(order, vec![b.as_str(), a.as_str()]);

    t.set_current(&a);
    assert_eq!(t.current(), Some(a.as_str()));
    let order: Vec<&str> = t.list().iter().map(|(k, _)| *k).collect();
    assert_eq!(order, vec![a.as_str(), b.as_str()]);
}

#[test]
fn kill_removes_from_set_and_clears_current() {
    let mut t = BufferTable::new();
    let a = t.insert(key("/p/a.rs"), "a".into());
    t.set_current(&a);
    assert!(t.kill(&a));
    assert!(t.get(&a).is_none());
    assert_eq!(t.current(), None);
    assert_eq!(t.len(), 0, "killing the only buffer leaves an empty table");
    assert!(!t.kill("/p/nope.rs"));
    assert_eq!(t.len(), 0);
}

#[test]
fn killing_non_current_buffer_keeps_current() {
    let mut t = BufferTable::new();
    let a = t.insert(key("/p/a.rs"), "a".into());
    let b = t.insert(key("/p/b.rs"), "b".into());
    t.set_current(&a);
    t.kill(&b);
    assert_eq!(t.current(), Some(a.as_str()));
}

#[test]
fn insert_replaces_existing_buffer_text() {
    let mut t = BufferTable::new();
    let k = t.insert(key("/p/a.rs"), "old".into());
    t.insert(key("/p/a.rs"), "new".into());
    assert_eq!(t.len(), 1, "exactly the one inserted buffer");
    assert_eq!(t.get(&k).unwrap().line_text(0).as_deref(), Some("new"));
}

#[test]
fn same_relative_path_different_projects_are_distinct() {
    let mut t = BufferTable::new();
    let a = t.insert(key("/p1/src/main.rs"), "one".into());
    let b = t.insert(key("/p2/src/main.rs"), "two".into());
    assert_ne!(a, b);
    assert_eq!(t.len(), 2, "two buffers, no scratch");
}

#[test]
fn line_count_and_line_text() {
    let mut t = BufferTable::new();
    let k = t.insert(key("/p/a.rs"), "line1\nline2\nline3\n".into());
    let buf = t.get(&k).unwrap();
    assert_eq!(buf.line_count(), 4);
    assert_eq!(buf.line_text(0).as_deref(), Some("line1"));
    assert_eq!(buf.line_text(1).as_deref(), Some("line2"));
    assert_eq!(buf.line_text(2).as_deref(), Some("line3"));
    assert_eq!(buf.line_text(3).as_deref(), Some(""));
    assert_eq!(buf.line_text(4).as_deref(), None);
}

#[test]
fn byte_to_line_roundtrip() {
    let mut t = BufferTable::new();
    let k = t.insert(key("/p/a.rs"), "abc\ndef\nghi\n".into());
    let buf = t.get(&k).unwrap();
    assert_eq!(buf.byte_to_line(0), 0);
    assert_eq!(buf.byte_to_line(3), 0);
    assert_eq!(buf.byte_to_line(4), 1);
    assert_eq!(buf.byte_to_line(7), 1);
    assert_eq!(buf.byte_to_line(8), 2);
}

#[test]
fn line_to_byte_roundtrip() {
    let mut t = BufferTable::new();
    let k = t.insert(key("/p/a.rs"), "abc\ndef\nghi\n".into());
    let buf = t.get(&k).unwrap();
    assert_eq!(buf.line_to_byte(0), 0);
    assert_eq!(buf.line_to_byte(1), 4);
    assert_eq!(buf.line_to_byte(2), 8);
    for line in 0..3 {
        assert_eq!(buf.byte_to_line(buf.line_to_byte(line)), line);
    }
}

#[test]
fn try_line_to_byte_out_of_bounds() {
    let mut t = BufferTable::new();
    let k = t.insert(key("/p/a.rs"), "abc\n".into());
    let buf = t.get(&k).unwrap();
    assert_eq!(buf.try_line_to_byte(0), Some(0));
    assert_eq!(buf.try_line_to_byte(1), Some(4));
    assert_eq!(buf.try_line_to_byte(2), Some(4));
    assert_eq!(buf.try_line_to_byte(3), None);
}

#[test]
fn try_byte_to_line_col_multibyte() {
    let mut t = BufferTable::new();
    let k = t.insert(key("/p/a.rs"), "café omega\nxx\n".into());
    let buf = t.get(&k).unwrap();
    assert_eq!(buf.try_byte_to_line_col(0), Some((0, 0)));
    assert_eq!(buf.try_byte_to_line_col(6), Some((0, 5)), "byte 6 is char 5 (é occupies 2 bytes)");
    assert_eq!(buf.try_byte_to_line_col(12), Some((1, 0)));
    assert_eq!(buf.try_byte_to_line_col(13), Some((1, 1)));
    assert_eq!(buf.try_byte_to_line_col(999), None, "out of bounds");
}

#[test]
fn try_byte_to_line_out_of_bounds() {
    let mut t = BufferTable::new();
    let k = t.insert(key("/p/a.rs"), "abc\n".into());
    let buf = t.get(&k).unwrap();
    assert_eq!(buf.try_byte_to_line(0), Some(0));
    assert_eq!(buf.try_byte_to_line(3), Some(0));
    assert_eq!(buf.try_byte_to_line(4), Some(1));
    assert_eq!(buf.try_byte_to_line(100), None);
}

#[test]
fn large_file_detection() {
    let chunk = "x".repeat(1024);
    let mut rope = Rope::new();
    for _ in 0..(BIG_FILE_THRESHOLD / 1024 + 1) {
        rope.insert(rope.len_chars(), &chunk);
        rope.insert(rope.len_chars(), "\n");
    }
    let buf = Buffer::new(None, rope, SystemTime::UNIX_EPOCH, false);
    assert!(buf.is_big(), "should be flagged as big");
    assert!(buf.byte_count() > BIG_FILE_THRESHOLD);

    let small = Buffer::new(None, Rope::from_str("hello"), SystemTime::UNIX_EPOCH, false);
    assert!(!small.is_big());
}

#[test]
fn buffer_text_roundtrip() {
    let mut t = BufferTable::new();
    let k = t.insert(key("/p/a.rs"), "hello\nworld\n".into());
    let buf = t.get(&k).unwrap();
    assert_eq!(buf.text(), "hello\nworld\n");
}

#[test]
fn is_locally_owned_edit_mode_file_buffer() {
    let mut t = BufferTable::new();
    let k = t.insert(key("/p/a.rs"), "fn a() {}\n".into());
    let buf = t.get(&k).unwrap();
    assert!(!buf.is_locally_owned(), "read-only file buffer is not locally owned");

    t.get_mut(&k).unwrap().editable = true;
    assert!(t.get(&k).unwrap().is_locally_owned(), "an edit-mode file buffer must be locally owned");

    t.get_mut(&k).unwrap().editable = false;
    assert!(!t.get(&k).unwrap().is_locally_owned());

    let scratch_key = t.insert(None, String::new());
    let scratch = t.get(&scratch_key).unwrap();
    assert!(scratch.is_locally_owned());
}

#[test]
fn crlf_lines_are_stripped() {
    let mut t = BufferTable::new();
    let k = t.insert(key("/p/a.rs"), "line1\r\nline2\r\n".into());
    let buf = t.get(&k).unwrap();
    assert_eq!(buf.line_text(0).as_deref(), Some("line1"));
    assert_eq!(buf.line_text(1).as_deref(), Some("line2"));
}

#[test]
fn multi_chunk_lines_not_blank() {
    let line_content = "x".repeat(997);
    let num_lines = 4;
    let text: String = (0..num_lines)
        .map(|i| format!("line{}:{}", i, line_content))
        .collect::<Vec<_>>()
        .join("\n")
        + "\n";
    let rope = Rope::from_str(&text);
    let buf = Buffer::new(None, rope, SystemTime::UNIX_EPOCH, false);
    for line in 0..num_lines {
        let lt = buf.line_text(line).expect("in-bounds line must be Some");
        assert!(!lt.is_empty(), "line {} must not be blank", line);
        assert!(
            lt.starts_with(&format!("line{}:", line)),
            "line {} should start with its label, got: {}",
            line,
            &lt[..20]
        );
    }
    assert_eq!(buf.line_text(num_lines).as_deref(), Some(""));
}

#[test]
fn table_kill_then_reinsert_goes_to_front() {
    let mut t = BufferTable::new();
    let a = t.insert(key("/p/a.rs"), "a".into());
    let b = t.insert(key("/p/b.rs"), "b".into());
    let c = t.insert(key("/p/c.rs"), "c".into());
    assert!(t.kill(&b));
    let order: Vec<&str> = t.list().iter().map(|(k, _)| *k).collect();
    assert_eq!(order, vec![c.as_str(), a.as_str()]);
    t.insert(key("/p/b.rs"), "b2".into());
    let order: Vec<&str> = t.list().iter().map(|(k, _)| *k).collect();
    assert_eq!(order, vec![b.as_str(), c.as_str(), a.as_str()]);
    t.touch(&a);
    let order: Vec<&str> = t.list().iter().map(|(k, _)| *k).collect();
    assert_eq!(order, vec![a.as_str(), b.as_str(), c.as_str()]);
    t.touch("/p/unknown.rs");
    assert_eq!(t.len(), 3);
}

#[test]
fn set_current_on_unknown_key_changes_nothing() {
    let mut t = BufferTable::new();
    let a = t.insert(key("/p/a.rs"), "a".into());
    t.set_current("/p/missing.rs");
    assert_eq!(t.current(), None);
    t.set_current(&a);
    t.set_current("/p/missing.rs");
    assert_eq!(t.current(), Some(a.as_str()));
}
