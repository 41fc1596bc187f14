use redline::git::diff::{extract, strip_newline, DiffHunk, DiffLine, DiffOrigin, PatchLine};
use redline::git::error::GitError;
use redline::git::hunk::{
    ensure_utf8, old_side_ends_nl, reverse_apply_hunk_in_content, reverse_apply_in_range, revert_hunk_in_content,
    revert_in_range, split_lines_inclusive,
    unstage_action, IndexAction,
};
use redline::git::status::{
    classify, file_status, rename_paths, sort_by_path, status_files, FileStatus, RepoStatus,
    StatusEntry, StatusFlags, StatusKind,
};

fn dl(origin: DiffOrigin, content: &str) -> DiffLine {
    DiffLine { origin, content: content.into(), old_lineno: None, new_lineno: None }
}

fn hunk(new_start: u32, new_lines: u32, lines: Vec<DiffLine>) -> DiffHunk {
    DiffHunk {
        header: "@@".into(),
        old_start: new_start,
        old_lines: 0,
        new_start,
        new_lines,
        lines,
        old_ends_nl: true,
    }
}

#[test]
fn split_lines_keeps_terminators_and_partitions() {
    let parts = split_lines_inclusive(b"a\nbb\n\nc");
    assert_eq!(parts, vec![&b"a\n"[..], &b"bb\n"[..], &b"\n"[..], &b"c"[..]]);
    assert_eq!(parts.concat(), b"a\nbb\n\nc".to_vec());
    assert!(split_lines_inclusive(b"").is_empty());
}

#[test]
fn revert_hunk_replaces_new_side_span_with_old_side() {
    let h = hunk(
        2,
        2,
        vec![
            dl(DiffOrigin::Context, "two"),
            dl(DiffOrigin::Deletion, "old"),
            dl(DiffOrigin::Addition, "new"),
        ],
    );
    let out = revert_hunk_in_content(b"one\ntwo\nnew\nfour\n", &h, true);
    assert_eq!(out, b"one\ntwo\nold\nfour\n".to_vec());
    // Without a trailing newline on the old side's last line.
    let out = revert_hunk_in_content(b"one\ntwo\nnew\n", &h, false);
    assert_eq!(out, b"one\ntwo\nold".to_vec());
}

#[test]
fn reverse_apply_finds_the_new_side_block() {
    let h = hunk(
        9,
        2,
        vec![
            dl(DiffOrigin::Context, "ctx"),
            dl(DiffOrigin::Deletion, "head"),
            dl(DiffOrigin::Addition, "index"),
        ],
    );
    // The block sits at another line than new_start: found by content.
    let out = reverse_apply_hunk_in_content(b"x\nctx\nindex\ny\n", &h, true);
    assert_eq!(out, Some(b"x\nctx\nhead\ny\n".to_vec()));
    // Diverged workdir: not found.
    assert_eq!(reverse_apply_hunk_in_content(b"x\nctx\nother\n", &h, true), None);
    // The trimmed new side matches a file without a final newline.
    let out = reverse_apply_hunk_in_content(b"ctx\nindex", &h, false);
    assert_eq!(out, Some(b"ctx\nhead".to_vec()));
}

#[test]
fn ensure_utf8_reports_the_path() {
    assert_eq!(ensure_utf8("é\n".as_bytes(), "a.txt"), Ok(()));
    assert_eq!(ensure_utf8(&[0xff, 0x00], "b.bin"), Err(GitError::NotUtf8("b.bin".into())));
}

#[test]
fn strip_newline_decodes_lossily() {
    assert_eq!(strip_newline(b"abc\n"), "abc");
    assert_eq!(strip_newline(b"abc"), "abc");
    assert_eq!(strip_newline(b"a\n\n"), "a\n");
    assert_eq!(strip_newline(&[b'a', 0xff, b'\n']), "a\u{fffd}");
}

#[test]
fn extract_builds_hunks_counts_and_eofnl() {
    let lines = vec![
        PatchLine::FileHeader,
        PatchLine::HunkHeader {
            content: b"@@ -1,2 +1,2 @@\n".to_vec(),
            old_start: 1,
            old_lines: 2,
            new_start: 1,
            new_lines: 2,
        },
        PatchLine::Body { origin: DiffOrigin::Context, content: b"keep\n".to_vec(), old_lineno: Some(1), new_lineno: Some(1) },
        PatchLine::Body { origin: DiffOrigin::Deletion, content: b"gone\n".to_vec(), old_lineno: Some(2), new_lineno: None },
        PatchLine::DeleteEofNl,
        PatchLine::Body { origin: DiffOrigin::Addition, content: b"here\n".to_vec(), old_lineno: None, new_lineno: Some(2) },
    ];
    let d = extract(&lines, "f.txt");
    assert_eq!(d.path, "f.txt");
    assert!(!d.binary);
    assert_eq!((d.insertions, d.deletions), (1, 1));
    assert_eq!(d.hunks.len(), 1);
    let h = &d.hunks[0];
    assert_eq!(h.header, "@@ -1,2 +1,2 @@");
    assert_eq!((h.old_start, h.old_lines, h.new_start, h.new_lines), (1, 2, 1, 2));
    assert_eq!(h.lines.iter().map(|l| l.content.as_str()).collect::<Vec<_>>(), vec!["keep", "gone", "here"]);
    assert!(!h.old_ends_nl);
    let b = extract(&vec![PatchLine::FileHeader, PatchLine::Binary], "img.png");
    assert!(b.binary);
    assert!(b.hunks.is_empty());
}

#[test]
fn origin_markers() {
    assert_eq!(DiffOrigin::Context.marker(), ' ');
    assert_eq!(DiffOrigin::Addition.marker(), '+');
    assert_eq!(DiffOrigin::Deletion.marker(), '-');
}

fn flags() -> StatusFlags {
    StatusFlags {
        index_new: false,
        index_modified: false,
        index_deleted: false,
        index_renamed: false,
        index_typechange: false,
        wt_new: false,
        wt_modified: false,
        wt_deleted: false,
        wt_renamed: false,
        wt_typechange: false,
    }
}

#[test]
fn classify_orders_index_and_workdir_flags() {
    let mut f = flags();
    f.index_new = true;
    f.index_renamed = true;
    assert_eq!(classify(f), (StatusKind::Renamed, StatusKind::Unchanged, false));
    let mut f = flags();
    f.wt_new = true;
    assert_eq!(classify(f), (StatusKind::Unchanged, StatusKind::Unchanged, true));
    let mut f = flags();
    f.wt_new = true;
    f.index_new = true;
    f.wt_modified = true;
    assert_eq!(classify(f), (StatusKind::Added, StatusKind::Modified, false));
    let mut f = flags();
    f.wt_deleted = true;
    f.wt_typechange = true;
    assert_eq!(classify(f), (StatusKind::Unchanged, StatusKind::Deleted, false));
}

#[test]
fn rename_paths_prefers_the_delta_paths() {
    assert_eq!(
        rename_paths(Some("new.rs".into()), Some("old.rs".into()), "fallback".into()),
        ("new.rs".to_string(), Some("old.rs".to_string()))
    );
    assert_eq!(rename_paths(None, None, "fallback".into()), ("fallback".to_string(), None));
}

fn fs(path: &str, staged: StatusKind, unstaged: StatusKind, untracked: bool) -> FileStatus {
    FileStatus { path: path.into(), orig: None, staged, unstaged, untracked }
}

#[test]
fn status_counts_and_letters() {
    let st = RepoStatus {
        branch: None,
        files: vec![
            fs("a", StatusKind::Modified, StatusKind::Unchanged, false),
            fs("b", StatusKind::Added, StatusKind::Deleted, false),
            fs("c", StatusKind::Unchanged, StatusKind::Unchanged, true),
        ],
    };
    assert_eq!((st.staged_count(), st.unstaged_count(), st.untracked_count()), (2, 1, 1));
    assert!(st.files[1].is_staged() && st.files[1].is_unstaged());
    assert!(!st.files[2].is_staged());
    let letters: Vec<char> = [
        StatusKind::Unchanged,
        StatusKind::Added,
        StatusKind::Modified,
        StatusKind::Deleted,
        StatusKind::Renamed,
        StatusKind::Typechange,
    ]
    .iter()
    .map(|k| k.letter())
    .collect();
    assert_eq!(letters, vec![' ', 'A', 'M', 'D', 'R', 'T']);
}

#[test]
fn status_files_sort_by_path() {
    let files = vec![
        fs("src/b.rs", StatusKind::Modified, StatusKind::Unchanged, false),
        fs("README", StatusKind::Modified, StatusKind::Unchanged, false),
        fs("src/a.rs", StatusKind::Unchanged, StatusKind::Modified, false),
        fs("src/ä.rs", StatusKind::Unchanged, StatusKind::Modified, false),
    ];
    let sorted = sort_by_path(files);
    let paths: Vec<&str> = sorted.iter().map(|f| f.path.as_str()).collect();
    assert_eq!(paths, vec!["README", "src/a.rs", "src/b.rs", "src/ä.rs"]);
}

#[test]
fn reverse_apply_pure_deletion_splices_by_line_number() {
    let h = DiffHunk {
        header: "@@ -1 +0,0 @@".into(),
        old_start: 1,
        old_lines: 1,
        new_start: 0,
        new_lines: 0,
        lines: vec![dl(DiffOrigin::Deletion, "a")],
        old_ends_nl: true,
    };
    assert_eq!(reverse_apply_hunk_in_content(b"", &h, true), Some(b"a\n".to_vec()));
    assert_eq!(revert_hunk_in_content(b"", &h, true), b"a\n".to_vec());
    let h2 = DiffHunk { new_start: 2, lines: vec![dl(DiffOrigin::Deletion, "gone")], ..h };
    assert_eq!(reverse_apply_hunk_in_content(b"x\ny\n", &h2, true), Some(b"x\ngone\ny\n".to_vec()));
}

fn entry(path: &str, f: StatusFlags) -> StatusEntry {
    StatusEntry {
        flags: f,
        path: path.into(),
        staged_new: None,
        staged_old: None,
        unstaged_new: None,
        unstaged_old: None,
    }
}

#[test]
fn file_status_takes_rename_paths_from_the_renamed_side() {
    let mut f = flags();
    f.index_renamed = true;
    f.wt_renamed = true;
    let mut e = entry("old.rs", f);
    e.staged_new = Some("new.rs".into());
    e.staged_old = Some("old.rs".into());
    e.unstaged_new = Some("newer.rs".into());
    e.unstaged_old = Some("new.rs".into());
    let row = file_status(e.clone());
    assert_eq!(row.path, "new.rs");
    assert_eq!(row.orig, Some("old.rs".to_string()));
    let mut f2 = flags();
    f2.wt_renamed = true;
    e.flags = f2;
    let row = file_status(e.clone());
    assert_eq!((row.path.as_str(), row.orig.as_deref()), ("newer.rs", Some("new.rs")));
    let mut f3 = flags();
    f3.wt_modified = true;
    e.flags = f3;
    let row = file_status(e);
    assert_eq!((row.path.as_str(), row.orig), ("old.rs", None));
    assert_eq!(row.unstaged, StatusKind::Modified);
}

#[test]
fn status_files_rows_sorted_and_consistent() {
    let mut untracked = flags();
    untracked.wt_new = true;
    let mut renamed = flags();
    renamed.index_renamed = true;
    let mut r = entry("z_old.rs", renamed);
    r.staged_new = Some("b.rs".into());
    r.staged_old = Some("z_old.rs".into());
    let rows = status_files(vec![entry("c.txt", untracked), r]);
    let paths: Vec<&str> = rows.iter().map(|f| f.path.as_str()).collect();
    assert_eq!(paths, vec!["b.rs", "c.txt"]);
    assert_eq!(rows[0].orig, Some("z_old.rs".to_string()));
    assert!(rows[1].untracked && rows[1].orig.is_none());
}

#[test]
fn unstage_action_removes_only_emptied_new_files() {
    assert_eq!(unstage_action(0, false), IndexAction::RemoveEntry);
    assert_eq!(unstage_action(0, true), IndexAction::WriteBlob);
    assert_eq!(unstage_action(3, false), IndexAction::WriteBlob);
}

#[test]
fn sort_by_path_keeps_equal_paths_in_order() {
    let files = vec![
        fs("b", StatusKind::Modified, StatusKind::Unchanged, false),
        fs("a", StatusKind::Added, StatusKind::Unchanged, false),
        fs("b", StatusKind::Unchanged, StatusKind::Deleted, false),
        fs("a", StatusKind::Unchanged, StatusKind::Unchanged, true),
    ];
    let sorted = sort_by_path(files);
    let got: Vec<(&str, StatusKind, StatusKind, bool)> =
        sorted.iter().map(|f| (f.path.as_str(), f.staged, f.unstaged, f.untracked)).collect();
    assert_eq!(
        got,
        vec![
            ("a", StatusKind::Added, StatusKind::Unchanged, false),
            ("a", StatusKind::Unchanged, StatusKind::Unchanged, true),
            ("b", StatusKind::Modified, StatusKind::Unchanged, false),
            ("b", StatusKind::Unchanged, StatusKind::Deleted, false),
        ]
    );
}

#[test]
fn hunk_range_checks_match_the_contents() {
    let h = hunk(3, 1, vec![dl(DiffOrigin::Deletion, "gone"), dl(DiffOrigin::Addition, "here")]);
    // The span starts at line 3 (index 2): two lines are enough, one is not.
    assert!(revert_in_range(b"a\nb\n", &h));
    assert!(!revert_in_range(b"a\n", &h));
    assert!(revert_in_range(b"a\n", &hunk(0, 0, vec![])));
    // The new side ("here") is found: no line bound needed.
    assert!(reverse_apply_in_range(b"here\n", &h));
    // A pure deletion splices by line number, so the bound applies.
    let d = hunk(5, 0, vec![dl(DiffOrigin::Deletion, "gone")]);
    assert!(!reverse_apply_in_range(b"a\nb\n", &d));
    assert!(reverse_apply_in_range(b"a\nb\nc\nd\n", &d));
}

#[test]
fn old_side_newline_comes_from_the_old_content() {
    assert!(old_side_ends_nl(Some(b"a\nb\n")));
    assert!(!old_side_ends_nl(Some(b"a\nb")));
    assert!(!old_side_ends_nl(Some(b"")));
    assert!(!old_side_ends_nl(None));
}
