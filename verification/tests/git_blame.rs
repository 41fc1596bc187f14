use redline::git::blame::{blame_lines, LineBlame};
use redline::git::log::{log_entry, short_id};
use redline::git::status::{branch_info, HeadState};

fn committed(id: &str, who: &str, t: i64) -> Option<LineBlame> {
    Some(LineBlame {
        commit_id: id.to_string(),
        uncommitted: false,
        signature: Some((who.to_string(), t)),
    })
}

fn dirty() -> Option<LineBlame> {
    Some(LineBlame { commit_id: "0".repeat(40), uncommitted: true, signature: None })
}

#[test]
fn blame_lines_attribute_each_line() {
    let id = "abcdef0123456789abcdef0123456789abcdef01";
    let lines = blame_lines("l1\nNEW\nl3", &[committed(id, "Test", 42), dirty(), committed(id, "Test", 42)]);
    assert_eq!(lines.len(), 3);
    assert_eq!(lines[0].line_no, 1);
    assert_eq!(lines[0].short_id, "abcdef0");
    assert_eq!(lines[0].author, "Test");
    assert_eq!(lines[0].time, 42);
    assert_eq!(lines[0].text, "l1");
    assert_eq!(lines[1].short_id, "0000000");
    assert_eq!(lines[1].author, "Not Committed Yet");
    assert_eq!(lines[1].time, 0);
    assert_eq!(lines[1].text, "NEW");
    assert_eq!(lines[2].text, "l3");
    assert_eq!(lines[2].line_no, 3);
}

#[test]
fn blame_lines_skip_lines_without_a_record() {
    let lines = blame_lines("a\nb\n", &[None, committed("1234567", "X", 1)]);
    assert_eq!(lines.len(), 1);
    assert_eq!(lines[0].line_no, 2);
    assert_eq!(lines[0].text, "b");
    assert!(blame_lines("", &[]).is_empty());
    let unsigned = blame_lines("x\n", &[Some(LineBlame { commit_id: "ff".into(), uncommitted: false, signature: None })]);
    assert_eq!(unsigned[0].author, "");
    assert_eq!(unsigned[0].short_id, "ff");
}

#[test]
fn short_ids_and_log_entries() {
    assert_eq!(short_id("0123456789"), "0123456");
    assert_eq!(short_id("abc"), "abc");
    let e = log_entry("fedcba9876543210", Some("subject".into()), None, 100);
    assert_eq!(e.short_id, "fedcba9");
    assert_eq!(e.subject, "subject");
    assert_eq!(e.author, "");
    assert_eq!(e.time, 100);
    assert!(!e.date.is_empty());
}

#[test]
fn branch_info_covers_head_states() {
    let b = branch_info(HeadState::Attached(Some("main".into())));
    assert_eq!((b.name.as_str(), b.detached, b.unborn), ("main", false, false));
    let b = branch_info(HeadState::Attached(None));
    assert_eq!(b.name, "HEAD");
    let b = branch_info(HeadState::Detached(Some("0123456789abcdef".into())));
    assert_eq!((b.name.as_str(), b.detached, b.unborn), ("(0123456)", true, false));
    let b = branch_info(HeadState::Detached(None));
    assert_eq!(b.name, "HEAD");
    let b = branch_info(HeadState::Unborn);
    assert_eq!((b.name.as_str(), b.detached, b.unborn), ("(no commits)", false, true));
}

use redline::git::diff::{DiffHunk, FileDiff};
use redline::git::error::GitError;
use redline::git::hunk::{find_hunk, index_entry_flags, tree_lookup_name, tree_step, TreeStep, TREE_MODE};

fn bare_hunk(new_start: u32) -> DiffHunk {
    DiffHunk {
        header: format!("@@ -1,1 +{new_start},1 @@"),
        old_start: 1,
        old_lines: 1,
        new_start,
        new_lines: 1,
        lines: Vec::new(),
        old_ends_nl: true,
    }
}

#[test]
fn find_hunk_by_new_start() {
    let diff = FileDiff {
        path: "a.txt".into(),
        binary: false,
        insertions: 0,
        deletions: 0,
        hunks: vec![bare_hunk(3), bare_hunk(10)],
    };
    assert_eq!(find_hunk(&diff, "a.txt", 10).unwrap().new_start, 10);
    assert_eq!(
        find_hunk(&diff, "a.txt", 7),
        Err(GitError::HunkNotFound { file: "a.txt".into(), start: 7 })
    );
}

#[test]
fn index_entry_flags_split_at_64() {
    assert_eq!(index_entry_flags(10), (10, 0));
    assert_eq!(index_entry_flags(63), (63, 0));
    assert_eq!(index_entry_flags(64), (0, 64));
    assert_eq!(index_entry_flags(70000), (0, (70000 % 65536) as u16));
}

#[test]
fn tree_walk_steps() {
    assert_eq!(tree_lookup_name("src/lib.rs"), "src");
    assert_eq!(tree_lookup_name("lib.rs"), "lib.rs");
    assert_eq!(
        tree_step("src/lib.rs", Some(TREE_MODE)),
        TreeStep::Descend { name: "src".into(), rest: "lib.rs".into() }
    );
    assert_eq!(tree_step("lib.rs", Some(0o100644)), TreeStep::Found);
    assert_eq!(tree_step("src/lib.rs", Some(0o100644)), TreeStep::Missing);
    assert_eq!(tree_step("src", Some(TREE_MODE)), TreeStep::Missing);
    assert_eq!(tree_step("src/", Some(TREE_MODE)), TreeStep::Missing);
    assert_eq!(tree_step("x", None), TreeStep::Missing);
}
