use redline::git::diff::{DiffHunk, DiffLine, DiffOrigin, FileDiff};
use redline::git::status::{BranchInfo, FileStatus, RepoStatus, Side, StatusKind};
use redline::model::sections::{DiffMap, RowRole, SectionKind, StatusTree};

fn line(origin: DiffOrigin, content: &str) -> DiffLine {
    DiffLine {
        origin,
        content: content.to_string(),
        old_lineno: None,
        new_lineno: None,
    }
}

fn hunk(new_start: u32, header: &str, lines: Vec<DiffLine>) -> DiffHunk {
    DiffHunk {
        header: header.to_string(),
        old_start: new_start,
        old_lines: lines
            .iter()
            .filter(|l| l.origin != DiffOrigin::Addition)
            .count() as u32,
        new_start,
        new_lines: lines
            .iter()
            .filter(|l| l.origin != DiffOrigin::Deletion)
            .count() as u32,
        lines,
        old_ends_nl: true,
    }
}

fn fdiff(path: &str, ins: u32, del: u32, hunks: Vec<DiffHunk>) -> FileDiff {
    FileDiff {
        path: path.to_string(),
        binary: false,
        insertions: ins,
        deletions: del,
        hunks,
    }
}

/// A representative mixed repo state: one staged-only file, one
/// unstaged-only file, one both, one untracked, and one staged rename.
fn sample_status() -> RepoStatus {
    RepoStatus {
        branch: Some(BranchInfo {
            name: "main".into(),
            detached: false,
            unborn: false,
        }),
        files: vec![
            FileStatus {
                path: "src/a.rs".into(),
                orig: None,
                staged: StatusKind::Modified,
                unstaged: StatusKind::Unchanged,
                untracked: false,
            },
            FileStatus {
                path: "src/b.rs".into(),
                orig: None,
                staged: StatusKind::Unchanged,
                unstaged: StatusKind::Modified,
                untracked: false,
            },
            FileStatus {
                path: "src/c.rs".into(),
                orig: None,
                staged: StatusKind::Modified,
                unstaged: StatusKind::Modified,
                untracked: false,
            },
            FileStatus {
                path: "new.txt".into(),
                orig: None,
                staged: StatusKind::Unchanged,
                unstaged: StatusKind::Unchanged,
                untracked: true,
            },
            FileStatus {
                path: "src/renamed.rs".into(),
                orig: Some("src/old.rs".into()),
                staged: StatusKind::Renamed,
                unstaged: StatusKind::Unchanged,
                untracked: false,
            },
        ],
    }
}

fn sample_diffs() -> (DiffMap, DiffMap) {
    let a = fdiff(
        "src/a.rs",
        1,
        1,
        vec![hunk(
            4,
            "@@ -4,3 +4,3 @@",
            vec![
                line(DiffOrigin::Context, "fn f() {"),
                line(DiffOrigin::Deletion, "    old"),
                line(DiffOrigin::Addition, "    new"),
                line(DiffOrigin::Context, "}"),
            ],
        )],
    );
    let b = fdiff(
        "src/b.rs",
        1,
        1,
        vec![hunk(
            2,
            "@@ -2,2 +2,2 @@",
            vec![
                line(DiffOrigin::Context, "ctx"),
                line(DiffOrigin::Deletion, "gone"),
                line(DiffOrigin::Addition, "here"),
            ],
        )],
    );
    let c_s = fdiff(
        "src/c.rs",
        1,
        0,
        vec![hunk(
            7,
            "@@ -7,1 +7,2 @@",
            vec![
                line(DiffOrigin::Context, "base"),
                line(DiffOrigin::Addition, "staged line"),
            ],
        )],
    );
    let c_u = fdiff(
        "src/c.rs",
        1,
        1,
        vec![hunk(
            8,
            "@@ -8,2 +8,2 @@",
            vec![
                line(DiffOrigin::Deletion, "index line"),
                line(DiffOrigin::Addition, "work line"),
            ],
        )],
    );
    let renamed = fdiff(
        "src/renamed.rs",
        1,
        1,
        vec![hunk(
            1,
            "@@ -1 +1 @@",
            vec![
                line(DiffOrigin::Deletion, "old name"),
                line(DiffOrigin::Addition, "new name"),
            ],
        )],
    );
    let mut staged = DiffMap::new();
    staged.insert("src/a.rs".into(), a);
    staged.insert("src/c.rs".into(), c_s);
    staged.insert("src/renamed.rs".into(), renamed);
    let mut unstaged = DiffMap::new();
    unstaged.insert("src/b.rs".into(), b);
    unstaged.insert("src/c.rs".into(), c_u);
    (staged, unstaged)
}

fn build() -> StatusTree {
    let status = sample_status();
    let (staged, unstaged) = sample_diffs();
    StatusTree::build(&status, &staged, &unstaged, None)
}

/// Rows as `(role | text | selected)` strings, for assertions.
fn rows_text(tree: &StatusTree) -> Vec<String> {
    tree.visible_rows()
        .iter()
        .map(|r| format!("{:?} | {} | sel={}", r.role, r.text, r.selected))
        .collect()
}

#[test]
fn structure_groups_files_by_side() {
    let tree = build();
    // Top-level: header + three groups.
    assert_eq!(tree.sections().len(), 4);
    let staged = &tree.sections()[1];
    assert_eq!(staged.heading, "Staged changes");
    assert_eq!(
        staged.children.iter().map(|c| c.path.clone()).collect::<Vec<_>>(),
        vec![
            Some("src/a.rs".into()),
            Some("src/c.rs".into()),
            Some("src/renamed.rs".into()),
        ]
    );
    let unstaged = &tree.sections()[2];
    assert_eq!(
        unstaged.children.iter().map(|c| c.path.clone()).collect::<Vec<_>>(),
        vec![Some("src/b.rs".into()), Some("src/c.rs".into())],
    );
    let untracked = &tree.sections()[3];
    assert_eq!(untracked.children.len(), 1);
    assert_eq!(untracked.children[0].path, Some("new.txt".into()));
    // The rename carries its pre-rename path.
    let renamed = staged
        .children
        .iter()
        .find(|c| c.path.as_deref() == Some("src/renamed.rs"))
        .unwrap();
    assert_eq!(renamed.orig, Some("src/old.rs".into()));
}

#[test]
fn default_fold_hides_hunks_and_positions_cursor() {
    let tree = build();
    // No hunk headings are visible while files are collapsed.
    assert!(!rows_text(&tree).iter().any(|l| l.starts_with("HunkHeader")));
    // The cursor starts on the first addressable (file) section and its
    // row is marked selected.
    assert_eq!(tree.cursor(), Some("staged:src/a.rs"));
    let selected: Vec<_> = tree
        .visible_rows()
        .iter()
        .filter(|r| r.selected)
        .map(|r| r.text.clone())
        .collect();
    assert_eq!(selected, vec!["  M src/a.rs (+1 -1)".to_string()]);
}

#[test]
fn toggle_fold_reveals_hunks_and_body() {
    let mut tree = build();
    // The file section starts folded; toggle it open.
    tree.toggle_fold();
    let rows = rows_text(&tree);
    // The a.rs hunk header and its added/deleted lines now render.
    assert!(
        rows.iter().any(|l| l.starts_with("HunkHeader") && l.contains("@@ -4,3 +4,3 @@")),
        "\n{rows:?}"
    );
    assert!(rows.iter().any(|l| l.starts_with("DiffAdd") && l.contains("new")), "\n{rows:?}");
    assert!(rows.iter().any(|l| l.starts_with("DiffDelete") && l.contains("old")), "\n{rows:?}");
}

#[test]
fn cursor_movement_respects_fold_and_groups() {
    let mut tree = build();
    // Start on staged:src/a.rs. Move down: next sibling file (c.rs),
    // skipping its (folded) hunks, then the rename, then the group.
    assert_eq!(tree.cursor(), Some("staged:src/a.rs"));
    tree.move_down();
    assert_eq!(tree.cursor(), Some("staged:src/c.rs"));
    tree.move_down();
    assert_eq!(tree.cursor(), Some("staged:src/renamed.rs"));
    tree.move_down();
    assert_eq!(tree.cursor(), Some("unstaged")); // group heading
    tree.move_up();
    assert_eq!(tree.cursor(), Some("staged:src/renamed.rs"));
}

/// Unfolding a file reveals its hunk rows (header + diff body) directly
/// under it; the cursor can move onto the hunk, which is then
/// addressable with its path + new_start.
#[test]
fn unfold_file_cursor_lands_on_addressable_hunk() {
    let mut tree = build();
    // Cursor starts on the folded staged:src/a.rs. Unfold it.
    tree.toggle_fold();
    // Move down into the now-visible hunk.
    tree.move_down();
    let target = tree.cursor_target().expect("cursor on a section");
    assert_eq!(target.kind, SectionKind::Hunk, "cursor must be on the hunk");
    assert_eq!(target.path, Some("src/a.rs".into()));
    assert_eq!(target.side, Some(Side::Staged));
    assert_eq!(target.hunk_new_start, Some(4));
    // The hunk's inline diff body lines are present in the rendered rows.
    let rows = tree.visible_rows();
    assert!(
        rows.iter().any(|r| r.role == RowRole::DiffAdd && r.text.contains("new")),
        "inline added line missing: {rows:?}"
    );
    assert!(
        rows.iter().any(|r| r.role == RowRole::DiffDelete && r.text.contains("old")),
        "inline deleted line missing: {rows:?}"
    );
}

#[test]
fn fold_state_survives_refresh() {
    let mut tree = build();
    tree.toggle_fold(); // open staged:src/a.rs
    assert!(!tree.cursor_section().unwrap().folded);
    // Rebuild from the same inputs, carrying over fold + cursor.
    let status = sample_status();
    let (staged, unstaged) = sample_diffs();
    let prev = tree.clone();
    let tree2 = StatusTree::build(&status, &staged, &unstaged, Some(&prev));
    // The previously-open file stays open and the cursor is retained.
    assert_eq!(tree2.cursor(), Some("staged:src/a.rs"));
    assert!(
        !tree2.cursor_section().unwrap().children.is_empty(),
        "opened file must keep its hunk children"
    );
    assert!(!tree2.cursor_section().unwrap().folded);
}

#[test]
fn toggling_twice_restores_the_tree() {
    let mut tree = build();
    let before = rows_text(&tree);
    tree.toggle_fold();
    assert_ne!(rows_text(&tree), before);
    tree.toggle_fold();
    assert_eq!(rows_text(&tree), before);
}

#[test]
fn move_down_then_up_returns() {
    let mut tree = build();
    tree.move_down();
    let here = tree.cursor().map(|s| s.to_string());
    tree.move_down();
    tree.move_up();
    assert_eq!(tree.cursor().map(|s| s.to_string()), here);
}

#[test]
fn move_down_stays_on_last_section() {
    let mut tree = build();
    for _ in 0..20 {
        tree.move_down();
    }
    assert_eq!(tree.cursor(), Some("untracked:new.txt"));
    tree.move_down();
    assert_eq!(tree.cursor(), Some("untracked:new.txt"));
}

#[test]
fn diff_map_later_insert_wins() {
    let mut m = DiffMap::new();
    m.insert("a".into(), fdiff("a", 1, 0, vec![]));
    m.insert("a".into(), fdiff("a", 2, 3, vec![]));
    let d = m.get("a").unwrap();
    assert_eq!((d.insertions, d.deletions), (2, 3));
    assert!(m.get("b").is_none());
}

#[test]
fn refresh_fallback_cursor_skips_folded_groups() {
    let mut tree = build();
    tree.move_up();
    assert_eq!(tree.cursor(), Some("staged"));
    tree.toggle_fold(); // fold the staged group
    tree.move_down();
    tree.move_down();
    assert_eq!(tree.cursor(), Some("unstaged:src/b.rs"));
    // b.rs is gone after the refresh: the cursor falls back to the first
    // visible file, not to a file hidden inside the folded staged group.
    let mut status = sample_status();
    status.files.retain(|f| f.path != "src/b.rs");
    let (staged, unstaged) = sample_diffs();
    let prev = tree.clone();
    let tree2 = StatusTree::build(&status, &staged, &unstaged, Some(&prev));
    assert!(tree2.sections()[1].folded);
    assert_eq!(tree2.cursor(), Some("unstaged:src/c.rs"));
}

#[test]
fn group_sizes_match_status_counts() {
    let status = sample_status();
    let tree = build();
    assert_eq!(status.staged_count(), 3);
    assert_eq!(status.unstaged_count(), 2);
    assert_eq!(status.untracked_count(), 1);
    let groups = &tree.sections()[1..];
    assert_eq!(groups[0].id, "staged");
    assert_eq!(groups[1].id, "unstaged");
    assert_eq!(groups[2].id, "untracked");
    assert_eq!(groups[0].children.len(), status.staged_count());
    assert_eq!(groups[1].children.len(), status.unstaged_count());
    assert_eq!(groups[2].children.len(), status.untracked_count());
    for g in groups {
        assert!(g.children.iter().all(|c| c.kind == SectionKind::File));
    }
}

#[test]
fn move_down_then_up_restores_rows_and_cursor() {
    let mut tree = build();
    tree.move_up();
    tree.toggle_fold();
    let before = rows_text(&tree);
    let cursor = tree.cursor().map(|s| s.to_string());
    tree.move_down();
    assert_ne!(tree.cursor().map(|s| s.to_string()), cursor);
    tree.move_up();
    assert_eq!(tree.cursor().map(|s| s.to_string()), cursor);
    assert_eq!(rows_text(&tree), before);
}

#[test]
fn toggle_fold_flips_only_the_section_under_the_cursor() {
    let tree = build();
    let mut t = tree.clone();
    t.toggle_fold();
    assert_eq!(t.cursor(), tree.cursor());
    let (a, b) = (tree.sections(), t.sections());
    assert_eq!(a[0], b[0]);
    assert_eq!(a[2], b[2]);
    assert_eq!(a[3], b[3]);
    assert_eq!(a[1].children[1..], b[1].children[1..]);
    let (x, y) = (&a[1].children[0], &b[1].children[0]);
    assert_eq!(x.id, "staged:src/a.rs");
    assert_eq!(y.folded, !x.folded);
    assert_eq!((&x.id, &x.heading, &x.kind, &x.children), (&y.id, &y.heading, &y.kind, &y.children));
}
