//! The magit section tree: a plain-data model of the status buffer.
//!
//! Sections are nested (groups → files → hunks), each carries a fold state
//! and the tree carries a cursor (the section under point). The tree
//! renders to a flat list of display rows that the UI colors. Fold state
//! and the cursor survive refreshes by matching sections on their stable
//! `id`.

use vstd::prelude::*;
use crate::git::diff::{
    DiffHunk, DiffHunkView, DiffLine, DiffLineView, DiffOrigin, FileDiff, FileDiffView, copy_lines,
    lines_view, hunks_view, origin_marker,
};
use crate::git::status::{
    count_where, kind_letter, lemma_count_bound, staged_pred, unstaged_pred, untracked_pred, BranchInfo,
    FileStatus, RepoStatus, Side, StatusKind,
};
use crate::text::{decimal, push_char, push_decimal};

verus! {

broadcast use vstd::string::group_string_axioms;

/// The kind of a section.
#[derive(Clone, Copy, Debug, Default, PartialEq, Eq, Structural)]
pub enum SectionKind {
    /// The branch header line.
    #[default]
    Header,
    /// A top-level group: "Staged changes" / "Unstaged changes" /
    /// "Untracked files".
    Group,
    /// A file section (in a diff group or the untracked list).
    File,
    /// A hunk section (a child of a file section).
    Hunk,
}

/// The display role of a rendered row; the UI maps this (plus `selected`)
/// to a theme face.
#[derive(Clone, Copy, Debug, PartialEq, Eq, Structural)]
pub enum RowRole {
    Branch,
    Group,
    File,
    HunkHeader,
    DiffContext,
    DiffAdd,
    DiffDelete,
    /// A log entry row.
    Commit,
    /// A blame row.
    Blame,
    /// A commit-editor line that is a comment (prefilled, `#`-prefixed).
    Comment,
    /// A commit-editor line that is real message text.
    Text,
}

/// One section: a heading plus optional children and body (diff lines).
#[derive(Debug, PartialEq)]
pub struct Section {
    /// Stable identity (e.g. `"staged:src/a.rs#12"`), used to preserve fold
    /// state across refreshes.
    pub id: String,
    /// The heading line text.
    pub heading: String,
    pub kind: SectionKind,
    /// Which side this section lives on (Group/File/Hunk).
    pub side: Option<Side>,
    /// The file path (File/Hunk only).
    pub path: Option<String>,
    /// The pre-rename path (File only, when the file was renamed).
    pub orig: Option<String>,
    /// The hunk's new-side start line (Hunk only).
    pub hunk_new_start: Option<u32>,
    /// Whether this section's children/body are hidden.
    pub folded: bool,
    /// Body lines (Hunk sections only: the diff lines).
    pub body: Vec<DiffLine>,
    pub children: Vec<Section>,
}

/// The mathematical value of a section.
pub struct SectionView {
    pub id: Seq<char>,
    pub heading: Seq<char>,
    pub kind: SectionKind,
    pub side: Option<Side>,
    pub path: Option<Seq<char>>,
    pub orig: Option<Seq<char>>,
    pub hunk_new_start: Option<u32>,
    pub folded: bool,
    pub body: Seq<DiffLineView>,
    pub children: Seq<SectionView>,
}

/// The view of an optional string.
pub open spec fn opt_view(o: Option<String>) -> Option<Seq<char>> {
    match o {
        Some(s) => Some(s@),
        None => None,
    }
}

/// The value of one section.
pub open spec fn section_view(s: Section) -> SectionView
    decreases s,
{
    SectionView {
        id: s.id@,
        heading: s.heading@,
        kind: s.kind,
        side: s.side,
        path: opt_view(s.path),
        orig: opt_view(s.orig),
        hunk_new_start: s.hunk_new_start,
        folded: s.folded,
        body: lines_view(s.body@),
        children: sections_view(s.children@),
    }
}

/// The values of a list of sections.
pub open spec fn sections_view(ss: Seq<Section>) -> Seq<SectionView>
    decreases ss,
{
    if ss.len() == 0 {
        Seq::empty()
    } else {
        seq![section_view(ss[0])] + sections_view(ss.subrange(1, ss.len() as int))
    }
}

impl View for Section {
    type V = SectionView;

    open spec fn view(&self) -> SectionView {
        section_view(*self)
    }
}

/// One display row produced by rendering the tree.
#[derive(Clone, Debug, PartialEq)]
pub struct MagitRow {
    pub text: String,
    pub role: RowRole,
    /// True when this row is the section under the cursor.
    pub selected: bool,
}

/// The mathematical value of a row.
pub struct RowView {
    pub text: Seq<char>,
    pub role: RowRole,
    pub selected: bool,
}

impl View for MagitRow {
    type V = RowView;

    open spec fn view(&self) -> RowView {
        RowView { text: self.text@, role: self.role, selected: self.selected }
    }
}

/// The values of a list of strings.
pub open spec fn strings_view(v: Seq<String>) -> Seq<Seq<char>> {
    v.map_values(|s: String| s@)
}

/// The values of a list of rows.
pub open spec fn rows_view(rs: Seq<MagitRow>) -> Seq<RowView> {
    rs.map_values(|r: MagitRow| r@)
}

/// The magit status section tree, with its cursor.
#[derive(Clone, Debug, Default, PartialEq)]
pub struct StatusTree {
    sections: Vec<Section>,
    cursor: Option<String>,
}

/// The mathematical value of a status tree.
pub struct StatusTreeView {
    pub sections: Seq<SectionView>,
    pub cursor: Option<Seq<char>>,
}

impl View for StatusTree {
    type V = StatusTreeView;

    closed spec fn view(&self) -> StatusTreeView {
        StatusTreeView { sections: sections_view(self.sections@), cursor: opt_view(self.cursor) }
    }
}

/// The cursor's (path, kind, side, orig, hunk_new_start), if any.
#[derive(Clone, Debug, Default, PartialEq, Eq)]
pub struct CursorTarget {
    pub path: Option<String>,
    pub kind: SectionKind,
    pub side: Option<Side>,
    pub orig: Option<String>,
    pub hunk_new_start: Option<u32>,
}

// ── the tree, mathematically ───────────────────────────────────────────

/// The first section (in depth-first pre-order) whose id is `id`.
pub open spec fn find_in(ss: Seq<SectionView>, id: Seq<char>) -> Option<SectionView>
    decreases ss,
{
    if ss.len() == 0 {
        None
    } else if ss[0].id == id {
        Some(ss[0])
    } else {
        match find_in(ss[0].children, id) {
            Some(x) => Some(x),
            None => find_in(ss.subrange(1, ss.len() as int), id),
        }
    }
}

/// The ids of every section whose heading is rendered (depth-first,
/// skipping the children of folded sections).
pub open spec fn visible_ids(ss: Seq<SectionView>) -> Seq<Seq<char>>
    decreases ss,
{
    if ss.len() == 0 {
        Seq::empty()
    } else {
        seq![ss[0].id] + (if ss[0].folded {
            Seq::empty()
        } else {
            visible_ids(ss[0].children)
        }) + visible_ids(ss.subrange(1, ss.len() as int))
    }
}

/// The first visible file or hunk section in depth-first order (the
/// default cursor position): the children of a folded section are
/// skipped.
pub open spec fn first_addressable(ss: Seq<SectionView>) -> Option<Seq<char>>
    decreases ss,
{
    if ss.len() == 0 {
        None
    } else if ss[0].kind == SectionKind::File || ss[0].kind == SectionKind::Hunk {
        Some(ss[0].id)
    } else {
        match (if ss[0].folded {
            None
        } else {
            first_addressable(ss[0].children)
        }) {
            Some(c) => Some(c),
            None => first_addressable(ss.subrange(1, ss.len() as int)),
        }
    }
}

/// The sections with the first section whose id is `id` (depth-first)
/// having its fold state flipped; unchanged when no section has that id.
pub open spec fn toggled(ss: Seq<SectionView>, id: Seq<char>) -> Seq<SectionView>
    decreases ss,
{
    if ss.len() == 0 {
        ss
    } else if ss[0].id == id {
        seq![SectionView { folded: !ss[0].folded, ..ss[0] }] + ss.subrange(1, ss.len() as int)
    } else if find_in(ss[0].children, id) is Some {
        seq![SectionView { children: toggled(ss[0].children, id), ..ss[0] }] + ss.subrange(
            1,
            ss.len() as int,
        )
    } else {
        seq![ss[0]] + toggled(ss.subrange(1, ss.len() as int), id)
    }
}

/// Each section takes the fold state of the section with the same id in
/// `prev` (the first one, depth-first), keeping its own when `prev` has
/// none.
pub open spec fn carry_folds(ss: Seq<SectionView>, prev: Seq<SectionView>) -> Seq<SectionView>
    decreases ss,
{
    if ss.len() == 0 {
        ss
    } else {
        seq![
            SectionView {
                folded: match find_in(prev, ss[0].id) {
                    Some(p) => p.folded,
                    None => ss[0].folded,
                },
                children: carry_folds(ss[0].children, prev),
                ..ss[0]
            },
        ] + carry_folds(ss.subrange(1, ss.len() as int), prev)
    }
}

/// `n` pairs of spaces.
pub open spec fn two_spaces() -> Seq<char> {
    seq![' ', ' ']
}

/// The role of a section's heading row.
pub open spec fn kind_role(k: SectionKind) -> RowRole {
    match k {
        SectionKind::Header => RowRole::Branch,
        SectionKind::Group => RowRole::Group,
        SectionKind::File => RowRole::File,
        SectionKind::Hunk => RowRole::HunkHeader,
    }
}

/// The role of a diff body row.
pub open spec fn origin_role(o: DiffOrigin) -> RowRole {
    match o {
        DiffOrigin::Addition => RowRole::DiffAdd,
        DiffOrigin::Deletion => RowRole::DiffDelete,
        DiffOrigin::Context => RowRole::DiffContext,
    }
}

/// Whether `cursor` names `id`.
pub open spec fn is_cursor(cursor: Option<Seq<char>>, id: Seq<char>) -> bool {
    cursor == Some(id)
}

/// The rows of a hunk body under indentation `ind`.
pub open spec fn body_rows(body: Seq<DiffLineView>, ind: Seq<char>) -> Seq<RowView> {
    Seq::new(
        body.len(),
        |i: int|
            RowView {
                text: ind + two_spaces() + seq![origin_marker(body[i].origin)] + body[i].content,
                role: origin_role(body[i].origin),
                selected: false,
            },
    )
}

/// The display rows of `ss` under indentation `ind`: each heading row,
/// then (unless folded) its children one level deeper and its body rows.
pub open spec fn render_rows(ss: Seq<SectionView>, cursor: Option<Seq<char>>, ind: Seq<char>) -> Seq<
    RowView,
>
    decreases ss,
{
    if ss.len() == 0 {
        Seq::empty()
    } else {
        seq![
            RowView {
                text: ind + ss[0].heading,
                role: kind_role(ss[0].kind),
                selected: is_cursor(cursor, ss[0].id),
            },
        ] + (if ss[0].folded {
            Seq::empty()
        } else {
            render_rows(ss[0].children, cursor, ind + two_spaces()) + body_rows(ss[0].body, ind)
        }) + render_rows(ss.subrange(1, ss.len() as int), cursor, ind)
    }
}

/// The first index of `x` in `s`.
pub open spec fn index_of(s: Seq<Seq<char>>, x: Seq<char>) -> Option<int>
    decreases s.len(),
{
    if s.len() == 0 {
        None
    } else if s.last() == x && index_of(s.drop_last(), x) is None {
        Some(s.len() - 1)
    } else {
        index_of(s.drop_last(), x)
    }
}

/// The cursor after moving down over visible ids `ids`: the next id after
/// the cursor's (a no-op at the last); the first id when the cursor is not
/// on a visible section.
pub open spec fn moved_down(ids: Seq<Seq<char>>, cursor: Option<Seq<char>>) -> Option<Seq<char>> {
    match cursor {
        Some(c) => match index_of(ids, c) {
            Some(p) => if p + 1 < ids.len() {
                Some(ids[p + 1])
            } else {
                cursor
            },
            None => if ids.len() > 0 {
                Some(ids[0])
            } else {
                cursor
            },
        },
        None => if ids.len() > 0 {
            Some(ids[0])
        } else {
            cursor
        },
    }
}

/// The cursor after moving up over visible ids `ids`: the id before the
/// cursor's; unchanged at the first or off the visible sections.
pub open spec fn moved_up(ids: Seq<Seq<char>>, cursor: Option<Seq<char>>) -> Option<Seq<char>> {
    match cursor {
        Some(c) => match index_of(ids, c) {
            Some(p) => if p > 0 {
                Some(ids[p - 1])
            } else {
                cursor
            },
            None => cursor,
        },
        None => cursor,
    }
}

// ── section builders, mathematically ───────────────────────────────────

/// The branch header section.
pub open spec fn spec_header(branch: Option<BranchInfo>) -> SectionView {
    SectionView {
        id: "header"@,
        heading: match branch {
            Some(b) => if b.unborn {
                "## (no commits)"@
            } else {
                "## "@ + b.name@
            },
            None => "## (unknown branch)"@,
        },
        kind: SectionKind::Header,
        side: None,
        path: None,
        orig: None,
        hunk_new_start: None,
        folded: false,
        body: Seq::empty(),
        children: Seq::empty(),
    }
}

/// A hunk section under file section `file_id`.
pub open spec fn spec_hunk(file_id: Seq<char>, side: Side, path: Seq<char>, h: DiffHunkView) -> SectionView {
    SectionView {
        id: file_id + seq!['#'] + decimal(h.new_start as nat),
        heading: h.header,
        kind: SectionKind::Hunk,
        side: Some(side),
        path: Some(path),
        orig: None,
        hunk_new_start: Some(h.new_start),
        folded: false,
        body: h.lines,
        children: Seq::empty(),
    }
}

/// The hunk sections of a file's diff.
pub open spec fn spec_hunks(file_id: Seq<char>, side: Side, path: Seq<char>, hs: Seq<DiffHunkView>) -> Seq<
    SectionView,
> {
    Seq::new(hs.len(), |i: int| spec_hunk(file_id, side, path, hs[i]))
}

/// The heading of a file section: the status letter (`?` for untracked),
/// the path, the pre-rename path, and the diff stat when nonzero.
pub open spec fn file_heading(side: Side, f: FileStatus, d: Option<FileDiffView>) -> Seq<char> {
    let kind = match side {
        Side::Staged => f.staged,
        Side::Unstaged => f.unstaged,
        Side::Untracked => StatusKind::Unchanged,
    };
    let letter = if side == Side::Untracked {
        '?'
    } else {
        kind_letter(kind)
    };
    let base = seq![letter, ' '] + f.path@;
    let with_orig = match f.orig {
        Some(o) => base + " (was "@ + o@ + ")"@,
        None => base,
    };
    match d {
        Some(d) => if d.insertions > 0 || d.deletions > 0 {
            with_orig + " (+"@ + decimal(d.insertions) + " -"@ + decimal(d.deletions) + ")"@
        } else {
            with_orig
        },
        None => with_orig,
    }
}

/// The diff stat a file heading ends with: `(+` insertions ` -`
/// deletions `)`.
pub open spec fn stat_suffix(insertions: nat, deletions: nat) -> Seq<char> {
    seq![' ', '(', '+'] + decimal(insertions) + seq![' ', '-'] + decimal(deletions) + seq![')']
}

/// A file heading starts with the side's status letter and the path, and
/// ends, when the file's diff counts any line, with the diff's
/// insertions and then deletions; without a diff, or with nothing
/// counted, it carries no stat and ends with the path or the pre-rename
/// note.
pub proof fn lemma_file_heading_stat(side: Side, f: FileStatus, d: Option<FileDiffView>)
    ensures
        file_heading(side, f, d).len() >= 2 + f.path@.len(),
        file_heading(side, f, d)[0] == (if side == Side::Untracked {
            '?'
        } else {
            kind_letter(
                match side {
                    Side::Staged => f.staged,
                    _ => f.unstaged,
                },
            )
        }),
        file_heading(side, f, d).subrange(2, 2 + f.path@.len() as int) == f.path@,
        match d {
            Some(dv) => (dv.insertions > 0 || dv.deletions > 0) ==> {
                let h = file_heading(side, f, d);
                let t = stat_suffix(dv.insertions, dv.deletions);
                &&& h.len() >= t.len()
                &&& h.subrange(h.len() - t.len(), h.len() as int) == t
            },
            None => true,
        },
        !(match d {
            Some(dv) => dv.insertions > 0 || dv.deletions > 0,
            None => false,
        }) ==> file_heading(side, f, d)
            == seq![file_heading(side, f, d)[0], ' '] + f.path@ + match f.orig {
            Some(o) => " (was "@ + o@ + ")"@,
            None => Seq::<char>::empty(),
        },
{
    reveal_strlit(" (+");
    reveal_strlit(" -");
    reveal_strlit(")");
    let h = file_heading(side, f, d);
    let letter = h[0];
    let base = seq![letter, ' '] + f.path@;
    let with_orig = match f.orig {
        Some(o) => base + " (was "@ + o@ + ")"@,
        None => base,
    };
    assert(base.subrange(2, 2 + f.path@.len() as int) =~= f.path@);
    if let Some(o) = f.orig {
        assert(with_orig.subrange(2, 2 + f.path@.len() as int) =~= f.path@);
        assert(with_orig =~= seq![letter, ' '] + f.path@ + (" (was "@ + o@ + ")"@));
    } else {
        assert(with_orig =~= seq![letter, ' '] + f.path@ + Seq::<char>::empty());
    }
    if let Some(dv) = d {
        if dv.insertions > 0 || dv.deletions > 0 {
            let t = stat_suffix(dv.insertions, dv.deletions);
            assert(h =~= with_orig + t);
            assert(h.subrange(h.len() - t.len(), h.len() as int) =~= t);
            assert(h.subrange(2, 2 + f.path@.len() as int) =~= f.path@);
        }
    }
}

/// A file section in group `group_id` (starts folded).
pub open spec fn spec_file(group_id: Seq<char>, side: Side, f: FileStatus, d: Option<FileDiffView>) -> SectionView {
    let file_id = group_id + seq![':'] + f.path@;
    SectionView {
        id: file_id,
        heading: file_heading(side, f, d),
        kind: SectionKind::File,
        side: Some(side),
        path: Some(f.path@),
        orig: opt_view(f.orig),
        hunk_new_start: None,
        folded: true,
        body: Seq::empty(),
        children: match d {
            Some(d) => spec_hunks(file_id, side, f.path@, d.hunks),
            None => Seq::empty(),
        },
    }
}

/// Whether a file belongs to the group of `side`.
pub open spec fn on_side(f: FileStatus, side: Side) -> bool {
    match side {
        Side::Staged => f.staged != StatusKind::Unchanged,
        Side::Unstaged => f.unstaged != StatusKind::Unchanged,
        Side::Untracked => f.untracked,
    }
}

/// The diff recorded for `k`, if any.
pub open spec fn lookup(m: Map<Seq<char>, FileDiffView>, k: Seq<char>) -> Option<FileDiffView> {
    if m.contains_key(k) {
        Some(m[k])
    } else {
        None
    }
}

/// The file sections of a group: the files on its side, in order.
pub open spec fn spec_files(
    group_id: Seq<char>,
    side: Side,
    files: Seq<FileStatus>,
    diffs: Map<Seq<char>, FileDiffView>,
) -> Seq<SectionView>
    decreases files.len(),
{
    if files.len() == 0 {
        Seq::empty()
    } else {
        let rest = spec_files(group_id, side, files.drop_last(), diffs);
        if on_side(files.last(), side) {
            rest.push(spec_file(group_id, side, files.last(), lookup(diffs, files.last().path@)))
        } else {
            rest
        }
    }
}

/// A top-level group section.
pub open spec fn spec_group(
    id: Seq<char>,
    title: Seq<char>,
    files: Seq<FileStatus>,
    side: Side,
    diffs: Map<Seq<char>, FileDiffView>,
) -> SectionView {
    SectionView {
        id,
        heading: title,
        kind: SectionKind::Group,
        side: Some(side),
        path: None,
        orig: None,
        hunk_new_start: None,
        folded: false,
        body: Seq::empty(),
        children: spec_files(id, side, files, diffs),
    }
}

/// The freshly built sections: the header and the staged, unstaged and
/// untracked groups.
pub open spec fn spec_fresh(
    status: RepoStatus,
    staged: Map<Seq<char>, FileDiffView>,
    unstaged: Map<Seq<char>, FileDiffView>,
) -> Seq<SectionView> {
    seq![
        spec_header(status.branch),
        spec_group("staged"@, "Staged changes"@, status.files@, Side::Staged, staged),
        spec_group("unstaged"@, "Unstaged changes"@, status.files@, Side::Unstaged, unstaged),
        spec_group("untracked"@, "Untracked files"@, status.files@, Side::Untracked, Map::empty()),
    ]
}

/// The built sections, with the fold state carried over from `prev`.
pub open spec fn spec_built(
    status: RepoStatus,
    staged: Map<Seq<char>, FileDiffView>,
    unstaged: Map<Seq<char>, FileDiffView>,
    prev: Option<StatusTreeView>,
) -> Seq<SectionView> {
    match prev {
        Some(p) => carry_folds(spec_fresh(status, staged, unstaged), p.sections),
        None => spec_fresh(status, staged, unstaged),
    }
}

/// The built cursor: the carried-over cursor when its section is still
/// visible, else the first visible file/hunk section.
pub open spec fn spec_cursor(ss: Seq<SectionView>, prev: Option<StatusTreeView>) -> Option<Seq<char>> {
    match prev {
        Some(p) => match p.cursor {
            Some(c) => if visible_ids(ss).contains(c) {
                Some(c)
            } else {
                first_addressable(ss)
            },
            None => first_addressable(ss),
        },
        None => first_addressable(ss),
    }
}

// ── the diff table ─────────────────────────────────────────────────────

/// A table of per-file diffs keyed by path (a later insert of a key wins).
#[derive(Clone, Debug, Default)]
pub struct DiffMap {
    entries: Vec<(String, FileDiff)>,
}

/// The map held by a list of entries; later entries win.
pub open spec fn map_of(es: Seq<(String, FileDiff)>) -> Map<Seq<char>, FileDiffView>
    decreases es.len(),
{
    if es.len() == 0 {
        Map::empty()
    } else {
        map_of(es.drop_last()).insert(es.last().0@, es.last().1@)
    }
}

impl View for DiffMap {
    type V = Map<Seq<char>, FileDiffView>;

    closed spec fn view(&self) -> Map<Seq<char>, FileDiffView> {
        map_of(self.entries@)
    }
}

impl DiffMap {
    /// An empty table.
    pub fn new() -> (m: Self)
        ensures
            m@ == Map::<Seq<char>, FileDiffView>::empty(),
    {
        DiffMap { entries: Vec::new() }
    }

    /// Record `diff` for `path` (replacing any earlier diff for it).
    pub fn insert(&mut self, path: String, diff: FileDiff)
        ensures
            final(self)@ == old(self)@.insert(path@, diff@),
    {
        self.entries.push((path, diff));
        assert(self.entries@.drop_last() =~= old(self).entries@);
    }

    /// The diff recorded for `path`, if any.
    pub fn get(&self, path: &str) -> (r: Option<&FileDiff>)
        ensures
            match r {
                Some(d) => lookup(self@, path@) == Some(d@),
                None => lookup(self@, path@) is None,
            },
    {
        let ghost es = self.entries@;
        let mut i = self.entries.len();
        assert(es.take(i as int) =~= es);
        while i > 0
            invariant
                i <= es.len(),
                es == self.entries@,
                lookup(map_of(es), path@) == lookup(map_of(es.take(i as int)), path@),
            decreases i,
        {
            let key = &self.entries[i - 1].0;
            proof {
                assert(es.take(i as int).drop_last() =~= es.take(i - 1));
            }
            if crate::text::str_eq(key.as_str(), path) {
                return Some(&self.entries[i - 1].1);
            }
            i = i - 1;
        }
        assert(es.take(0) =~= Seq::<(String, FileDiff)>::empty());
        None
    }
}

// ── lemmas ─────────────────────────────────────────────────────────────

/// The value of a list of sections lines up with its elements.
pub proof fn lemma_sections_view(ss: Seq<Section>)
    ensures
        sections_view(ss).len() == ss.len(),
        forall|i: int| 0 <= i < ss.len() ==> #[trigger] sections_view(ss)[i] == section_view(ss[i]),
    decreases ss.len(),
{
    if ss.len() > 0 {
        lemma_sections_view(ss.subrange(1, ss.len() as int));
    }
}

proof fn lemma_sections_view_push(ss: Seq<Section>, s: Section)
    ensures
        sections_view(ss.push(s)) == sections_view(ss).push(section_view(s)),
{
    lemma_sections_view(ss.push(s));
    lemma_sections_view(ss);
    assert(sections_view(ss.push(s)) =~= sections_view(ss).push(section_view(s)));
}

proof fn lemma_sections_view_subrange(ss: Seq<Section>, i: int)
    requires
        0 <= i <= ss.len(),
    ensures
        sections_view(ss.subrange(i, ss.len() as int)) == sections_view(ss).subrange(
            i,
            ss.len() as int,
        ),
{
    lemma_sections_view(ss);
    lemma_sections_view(ss.subrange(i, ss.len() as int));
    assert(sections_view(ss.subrange(i, ss.len() as int)) =~= sections_view(ss).subrange(
        i,
        ss.len() as int,
    ));
}

/// Flipping an absent id leaves the sections unchanged.
pub proof fn lemma_toggled_absent(ss: Seq<SectionView>, id: Seq<char>)
    requires
        find_in(ss, id) is None,
    ensures
        toggled(ss, id) == ss,
    decreases ss,
{
    if ss.len() > 0 {
        lemma_toggled_absent(ss.subrange(1, ss.len() as int), id);
        assert(seq![ss[0]] + ss.subrange(1, ss.len() as int) =~= ss);
    }
}

/// Flipping keeps every id where it was, so the same section is found.
pub proof fn lemma_toggled_find(ss: Seq<SectionView>, id: Seq<char>)
    ensures
        (find_in(toggled(ss, id), id) is Some) == (find_in(ss, id) is Some),
        find_in(ss, id) matches Some(x) ==> find_in(toggled(ss, id), id) == Some(
            SectionView { folded: !x.folded, ..x },
        ),
    decreases ss,
{
    if ss.len() > 0 {
        let rest = ss.subrange(1, ss.len() as int);
        let t = toggled(ss, id);
        if ss[0].id == id {
            assert(t[0].id == id);
        } else if find_in(ss[0].children, id) is Some {
            lemma_toggled_find(ss[0].children, id);
            assert(t[0].children == toggled(ss[0].children, id));
        } else {
            lemma_toggled_find(rest, id);
            assert(t.subrange(1, t.len() as int) =~= toggled(rest, id));
            assert(t[0] == ss[0]);
        }
    }
}

/// Flipping the same id twice restores the sections.
pub proof fn lemma_toggled_twice(ss: Seq<SectionView>, id: Seq<char>)
    ensures
        toggled(toggled(ss, id), id) == ss,
    decreases ss,
{
    if ss.len() > 0 {
        let rest = ss.subrange(1, ss.len() as int);
        let t = toggled(ss, id);
        if ss[0].id == id {
            assert(t.subrange(1, t.len() as int) =~= rest);
            assert(seq![SectionView { folded: !t[0].folded, ..t[0] }] + rest =~= ss);
        } else if find_in(ss[0].children, id) is Some {
            lemma_toggled_twice(ss[0].children, id);
            lemma_toggled_find(ss[0].children, id);
            assert(t.subrange(1, t.len() as int) =~= rest);
            assert(seq![SectionView { children: toggled(t[0].children, id), ..t[0] }] + rest =~= ss);
        } else {
            lemma_toggled_twice(rest, id);
            assert(t[0] == ss[0]);
            assert(t.subrange(1, t.len() as int) =~= toggled(rest, id));
            assert(seq![t[0]] + toggled(toggled(rest, id), id) =~= ss);
        }
    }
}

/// A section on its own, without its children.
pub open spec fn strip(s: SectionView) -> SectionView {
    SectionView { children: Seq::empty(), ..s }
}

/// Every section, depth-first (the children of folded sections
/// included), each on its own.
pub open spec fn all_sections(ss: Seq<SectionView>) -> Seq<SectionView>
    decreases ss,
{
    if ss.len() == 0 {
        Seq::empty()
    } else {
        seq![strip(ss[0])] + all_sections(ss[0].children) + all_sections(ss.subrange(1, ss.len() as int))
    }
}

/// The position of the first section with id `id` in `s`.
pub open spec fn first_with(s: Seq<SectionView>, id: Seq<char>) -> Option<int>
    decreases s.len(),
{
    if s.len() == 0 {
        None
    } else if s[0].id == id {
        Some(0)
    } else {
        match first_with(s.drop_first(), id) {
            Some(k) => Some(k + 1),
            None => None,
        }
    }
}

proof fn lemma_first_with_append(a: Seq<SectionView>, b: Seq<SectionView>, id: Seq<char>)
    ensures
        first_with(a + b, id) == (match first_with(a, id) {
            Some(k) => Some(k),
            None => match first_with(b, id) {
                Some(k) => Some(k + a.len()),
                None => None,
            },
        }),
    decreases a.len(),
{
    if a.len() > 0 {
        assert((a + b).drop_first() =~= a.drop_first() + b);
        lemma_first_with_append(a.drop_first(), b, id);
    } else {
        assert(a + b =~= b);
    }
}

proof fn lemma_first_with_bound(s: Seq<SectionView>, id: Seq<char>)
    ensures
        first_with(s, id) matches Some(k) ==> 0 <= k < s.len() && s[k].id == id,
    decreases s.len(),
{
    if s.len() > 0 {
        lemma_first_with_bound(s.drop_first(), id);
    }
}

proof fn lemma_find_in_all(ss: Seq<SectionView>, id: Seq<char>)
    ensures
        (find_in(ss, id) is Some) == (first_with(all_sections(ss), id) is Some),
    decreases ss,
{
    if ss.len() > 0 {
        let rest = ss.subrange(1, ss.len() as int);
        assert(decreases_to!(ss => ss[0]));
        lemma_find_in_all(ss[0].children, id);
        lemma_find_in_all(rest, id);
        let f0 = seq![strip(ss[0])];
        lemma_first_with_append(f0 + all_sections(ss[0].children), all_sections(rest), id);
        lemma_first_with_append(f0, all_sections(ss[0].children), id);
        assert(f0.drop_first() =~= Seq::<SectionView>::empty());
        assert(first_with(f0.drop_first(), id) is None);
        assert(all_sections(ss) == f0 + all_sections(ss[0].children) + all_sections(rest));
        if ss[0].id == id {
            assert(first_with(f0, id) == Some(0int));
        } else {
            assert(first_with(f0, id) is None);
        }
    }
}

/// Toggling flips the fold state of the first section with that id
/// (depth-first) and changes nothing else: every other section, and that
/// section's other fields, stay as they were; without such a section
/// nothing changes.
pub proof fn lemma_toggled_only_that_section(ss: Seq<SectionView>, id: Seq<char>)
    ensures
        all_sections(toggled(ss, id)) == (match first_with(all_sections(ss), id) {
            Some(k) => all_sections(ss).update(
                k,
                SectionView { folded: !all_sections(ss)[k].folded, ..all_sections(ss)[k] },
            ),
            None => all_sections(ss),
        }),
    decreases ss,
{
    if ss.len() > 0 {
        let rest = ss.subrange(1, ss.len() as int);
        assert(decreases_to!(ss => ss[0]));
        let f0 = seq![strip(ss[0])];
        let fc = all_sections(ss[0].children);
        let fr = all_sections(rest);
        let t = toggled(ss, id);
        lemma_first_with_append(f0 + fc, fr, id);
        lemma_first_with_append(f0, fc, id);
        assert(f0.drop_first() =~= Seq::<SectionView>::empty());
        assert(first_with(f0.drop_first(), id) is None);
        assert(all_sections(ss) == f0 + fc + fr);
        if ss[0].id == id {
            assert(first_with(f0, id) == Some(0int));
        } else {
            assert(first_with(f0, id) is None);
        }
        assert(t.subrange(1, t.len() as int) =~= (if ss[0].id == id || find_in(ss[0].children, id) is Some {
            rest
        } else {
            toggled(rest, id)
        }));
        if ss[0].id == id {
            assert(all_sections(t) == seq![strip(t[0])] + fc + fr);
            assert(all_sections(t) =~= all_sections(ss).update(
                0,
                SectionView { folded: !all_sections(ss)[0].folded, ..all_sections(ss)[0] },
            ));
        } else if find_in(ss[0].children, id) is Some {
            lemma_toggled_only_that_section(ss[0].children, id);
            lemma_find_in_all(ss[0].children, id);
            lemma_first_with_bound(fc, id);
            let k = first_with(fc, id)->0;
            assert(strip(t[0]) == strip(ss[0]));
            assert(all_sections(t) == f0 + all_sections(toggled(ss[0].children, id)) + fr);
            assert(all_sections(t) =~= all_sections(ss).update(
                k + 1,
                SectionView { folded: !all_sections(ss)[k + 1].folded, ..all_sections(ss)[k + 1] },
            ));
        } else {
            lemma_toggled_only_that_section(rest, id);
            lemma_find_in_all(ss[0].children, id);
            lemma_first_with_bound(fr, id);
            assert(t[0] == ss[0]);
            assert(all_sections(t) == f0 + fc + all_sections(toggled(rest, id)));
            match first_with(fr, id) {
                Some(k) => {
                    let k2 = k + 1 + fc.len();
                    assert(all_sections(t) =~= all_sections(ss).update(
                        k2,
                        SectionView { folded: !all_sections(ss)[k2].folded, ..all_sections(ss)[k2] },
                    ));
                },
                None => {
                    assert(all_sections(t) =~= all_sections(ss));
                },
            }
        }
    }
}

/// Toggling the fold under the cursor flips that one section's fold
/// state and leaves every other section, and the cursor, as they were.
pub proof fn lemma_toggle_fold_changes_one_section(v: StatusTreeView)
    ensures
        toggled_tree(v).cursor == v.cursor,
        all_sections(toggled_tree(v).sections) == (match v.cursor {
            Some(c) => match first_with(all_sections(v.sections), c) {
                Some(k) => all_sections(v.sections).update(
                    k,
                    SectionView { folded: !all_sections(v.sections)[k].folded, ..all_sections(v.sections)[k] },
                ),
                None => all_sections(v.sections),
            },
            None => all_sections(v.sections),
        }),
{
    if let Some(c) = v.cursor {
        lemma_toggled_only_that_section(v.sections, c);
    }
}

/// `index_of` finds the first occurrence.
pub proof fn lemma_index_of(s: Seq<Seq<char>>, x: Seq<char>)
    ensures
        index_of(s, x) matches Some(p) ==> 0 <= p < s.len() && s[p] == x && forall|q: int|
            0 <= q < p ==> s[q] != x,
        index_of(s, x) is None ==> forall|q: int| 0 <= q < s.len() ==> s[q] != x,
    decreases s.len(),
{
    if s.len() > 0 {
        let d = s.drop_last();
        lemma_index_of(d, x);
        assert forall|q: int| 0 <= q < d.len() implies d[q] == s[q] by {}
        match index_of(d, x) {
            Some(p) => {
                assert(index_of(s, x) == Some(p));
            },
            None => {
                if s.last() == x {
                    assert(index_of(s, x) == Some(s.len() - 1));
                } else {
                    assert(index_of(s, x) is None);
                }
            },
        }
    }
}

proof fn lemma_first_addressable_visible(ss: Seq<SectionView>)
    ensures
        first_addressable(ss) matches Some(c) ==> visible_ids(ss).contains(c),
    decreases ss,
{
    if ss.len() > 0 {
        let rest = ss.subrange(1, ss.len() as int);
        let kids = if ss[0].folded {
            Seq::<Seq<char>>::empty()
        } else {
            visible_ids(ss[0].children)
        };
        let v = visible_ids(ss);
        assert(v == seq![ss[0].id] + kids + visible_ids(rest));
        assert(v[0] == ss[0].id);
        if !(ss[0].kind == SectionKind::File || ss[0].kind == SectionKind::Hunk) {
            assert(decreases_to!(ss => ss[0]));
            lemma_first_addressable_visible(ss[0].children);
            lemma_first_addressable_visible(rest);
            let inner = if ss[0].folded {
                None
            } else {
                first_addressable(ss[0].children)
            };
            match inner {
                Some(c) => {
                    let k = choose|k: int| 0 <= k < kids.len() && kids[k] == c;
                    assert(v[1 + k] == c);
                },
                None => {
                    if let Some(c) = first_addressable(rest) {
                        let k = choose|k: int| 0 <= k < visible_ids(rest).len() && visible_ids(rest)[k] == c;
                        assert(v[1 + kids.len() + k] == c);
                    }
                },
            }
        }
    }
}

/// The cursor of a built tree rests on a visible section, if anywhere:
/// a carried-over cursor only when it is still visible, else the first
/// visible file or hunk section.
pub proof fn lemma_cursor_visible(ss: Seq<SectionView>, prev: Option<StatusTreeView>)
    ensures
        spec_cursor(ss, prev) matches Some(c) ==> visible_ids(ss).contains(c),
{
    lemma_first_addressable_visible(ss);
}

/// The predicate a group's side selects files by.
pub open spec fn side_pred(side: Side) -> spec_fn(FileStatus) -> bool {
    match side {
        Side::Staged => staged_pred(),
        Side::Unstaged => unstaged_pred(),
        Side::Untracked => untracked_pred(),
    }
}

proof fn lemma_spec_files_len(
    gid: Seq<char>,
    side: Side,
    files: Seq<FileStatus>,
    diffs: Map<Seq<char>, FileDiffView>,
)
    ensures
        spec_files(gid, side, files, diffs).len() == count_where(files, side_pred(side)),
    decreases files.len(),
{
    if files.len() > 0 {
        lemma_spec_files_len(gid, side, files.drop_last(), diffs);
        assert(side_pred(side)(files.last()) == on_side(files.last(), side));
    }
}

proof fn lemma_carry_shape(ss: Seq<SectionView>, prev: Seq<SectionView>)
    ensures
        carry_folds(ss, prev).len() == ss.len(),
        forall|i: int|
            0 <= i < ss.len() ==> {
                &&& (#[trigger] carry_folds(ss, prev)[i]).children == carry_folds(ss[i].children, prev)
                &&& carry_folds(ss, prev)[i].children.len() == ss[i].children.len()
                &&& carry_folds(ss, prev)[i].id == ss[i].id
                &&& carry_folds(ss, prev)[i].kind == ss[i].kind
            },
    decreases ss,
{
    if ss.len() > 0 {
        let rest = ss.subrange(1, ss.len() as int);
        assert(decreases_to!(ss => ss[0]));
        lemma_carry_shape(ss[0].children, prev);
        lemma_carry_shape(rest, prev);
        let c = carry_folds(ss, prev);
        assert forall|i: int| 0 <= i < ss.len() implies {
            &&& (#[trigger] c[i]).children == carry_folds(ss[i].children, prev)
            &&& c[i].children.len() == ss[i].children.len()
            &&& c[i].id == ss[i].id
            &&& c[i].kind == ss[i].kind
        } by {
            if i > 0 {
                assert(c[i] == carry_folds(rest, prev)[i - 1]);
                assert(rest[i - 1] == ss[i]);
            }
        }
    }
}

proof fn lemma_spec_files_kind(
    gid: Seq<char>,
    side: Side,
    files: Seq<FileStatus>,
    diffs: Map<Seq<char>, FileDiffView>,
)
    ensures
        forall|j: int|
            0 <= j < spec_files(gid, side, files, diffs).len() ==> (#[trigger] spec_files(
                gid,
                side,
                files,
                diffs,
            )[j]).kind == SectionKind::File,
    decreases files.len(),
{
    if files.len() > 0 {
        lemma_spec_files_kind(gid, side, files.drop_last(), diffs);
    }
}

/// The staged, unstaged and untracked groups of a built tree (the
/// sections with ids `staged`, `unstaged` and `untracked`) hold only file
/// sections, one per file the status counts on that side, whatever fold
/// state is carried over: the group sizes are `staged_count`,
/// `unstaged_count` and `untracked_count`, none above the number of
/// files.
pub proof fn lemma_group_counts(
    status: RepoStatus,
    staged: Map<Seq<char>, FileDiffView>,
    unstaged: Map<Seq<char>, FileDiffView>,
    prev: Option<StatusTreeView>,
)
    ensures
        spec_built(status, staged, unstaged, prev).len() == 4,
        spec_built(status, staged, unstaged, prev)[1].children.len() == count_where(status.files@, staged_pred()),
        spec_built(status, staged, unstaged, prev)[2].children.len() == count_where(status.files@, unstaged_pred()),
        spec_built(status, staged, unstaged, prev)[3].children.len() == count_where(status.files@, untracked_pred()),
        count_where(status.files@, staged_pred()) <= status.files@.len(),
        count_where(status.files@, unstaged_pred()) <= status.files@.len(),
        count_where(status.files@, untracked_pred()) <= status.files@.len(),
        spec_built(status, staged, unstaged, prev)[1].id == "staged"@,
        spec_built(status, staged, unstaged, prev)[2].id == "unstaged"@,
        spec_built(status, staged, unstaged, prev)[3].id == "untracked"@,
        forall|g: int, j: int|
            1 <= g < 4 && 0 <= j < spec_built(status, staged, unstaged, prev)[g].children.len()
                ==> (#[trigger] spec_built(status, staged, unstaged, prev)[g].children[j]).kind
                == SectionKind::File,
{
    let fresh = spec_fresh(status, staged, unstaged);
    lemma_spec_files_kind("staged"@, Side::Staged, status.files@, staged);
    lemma_spec_files_kind("unstaged"@, Side::Unstaged, status.files@, unstaged);
    lemma_spec_files_kind("untracked"@, Side::Untracked, status.files@, Map::empty());
    lemma_spec_files_len("staged"@, Side::Staged, status.files@, staged);
    lemma_spec_files_len("unstaged"@, Side::Unstaged, status.files@, unstaged);
    lemma_spec_files_len("untracked"@, Side::Untracked, status.files@, Map::empty());
    lemma_count_bound(status.files@, staged_pred());
    lemma_count_bound(status.files@, unstaged_pred());
    lemma_count_bound(status.files@, untracked_pred());
    match prev {
        Some(p) => {
            lemma_carry_shape(fresh, p.sections);
            assert(carry_folds(fresh, p.sections)[1].children.len() == fresh[1].children.len());
            assert(carry_folds(fresh, p.sections)[2].children.len() == fresh[2].children.len());
            assert(carry_folds(fresh, p.sections)[3].children.len() == fresh[3].children.len());
            assert(carry_folds(fresh, p.sections)[1].id == fresh[1].id);
            assert(carry_folds(fresh, p.sections)[2].id == fresh[2].id);
            assert(carry_folds(fresh, p.sections)[3].id == fresh[3].id);
            lemma_carry_shape(fresh[1].children, p.sections);
            lemma_carry_shape(fresh[2].children, p.sections);
            lemma_carry_shape(fresh[3].children, p.sections);
            let b = carry_folds(fresh, p.sections);
            assert forall|g: int, j: int| 1 <= g < 4 && 0 <= j < b[g].children.len() implies (
            #[trigger] b[g].children[j]).kind == SectionKind::File by {
                assert(b[g].children == carry_folds(fresh[g].children, p.sections));
                assert(b[g].children[j].kind == fresh[g].children[j].kind);
            }
        },
        None => {},
    }
}

/// The tree with the fold state of the section under its cursor flipped
/// (unchanged without a cursor).
pub open spec fn toggled_tree(v: StatusTreeView) -> StatusTreeView {
    StatusTreeView {
        sections: match v.cursor {
            Some(c) => toggled(v.sections, c),
            None => v.sections,
        },
        cursor: v.cursor,
    }
}

/// Toggling the fold under the cursor twice restores the whole tree.
pub proof fn lemma_toggle_fold_twice(v: StatusTreeView)
    ensures
        toggled_tree(toggled_tree(v)) == v,
{
    if let Some(c) = v.cursor {
        lemma_toggled_twice(v.sections, c);
    }
}

/// The sections whose heading is rendered (depth-first, skipping the
/// children of folded sections).
pub open spec fn visible_sections(ss: Seq<SectionView>) -> Seq<SectionView>
    decreases ss,
{
    if ss.len() == 0 {
        Seq::empty()
    } else {
        seq![ss[0]] + (if ss[0].folded {
            Seq::empty()
        } else {
            visible_sections(ss[0].children)
        }) + visible_sections(ss.subrange(1, ss.len() as int))
    }
}

/// The id of the first file or hunk section of `vs`.
pub open spec fn first_file_or_hunk(vs: Seq<SectionView>) -> Option<Seq<char>>
    decreases vs.len(),
{
    if vs.len() == 0 {
        None
    } else if vs[0].kind == SectionKind::File || vs[0].kind == SectionKind::Hunk {
        Some(vs[0].id)
    } else {
        first_file_or_hunk(vs.drop_first())
    }
}

proof fn lemma_first_append(a: Seq<SectionView>, b: Seq<SectionView>)
    ensures
        first_file_or_hunk(a + b) == (match first_file_or_hunk(a) {
            Some(c) => Some(c),
            None => first_file_or_hunk(b),
        }),
    decreases a.len(),
{
    if a.len() > 0 {
        assert((a + b).drop_first() =~= a.drop_first() + b);
        lemma_first_append(a.drop_first(), b);
    } else {
        assert(a + b =~= b);
    }
}

/// The visible ids are the ids of the visible sections, and the default
/// cursor is the first file or hunk among the visible sections.
pub proof fn lemma_first_addressable_is_first_visible(ss: Seq<SectionView>)
    ensures
        visible_ids(ss) == visible_sections(ss).map_values(|s: SectionView| s.id),
        first_addressable(ss) == first_file_or_hunk(visible_sections(ss)),
    decreases ss,
{
    if ss.len() > 0 {
        let rest = ss.subrange(1, ss.len() as int);
        assert(decreases_to!(ss => ss[0]));
        lemma_first_addressable_is_first_visible(ss[0].children);
        lemma_first_addressable_is_first_visible(rest);
        let kids = if ss[0].folded {
            Seq::<SectionView>::empty()
        } else {
            visible_sections(ss[0].children)
        };
        let vr = visible_sections(rest);
        assert(visible_sections(ss) == seq![ss[0]] + kids + vr);
        assert(kids.map_values(|s: SectionView| s.id) =~= (if ss[0].folded {
            Seq::<Seq<char>>::empty()
        } else {
            visible_ids(ss[0].children)
        }));
        assert((seq![ss[0]] + kids + vr).map_values(|s: SectionView| s.id) =~= seq![ss[0].id]
            + kids.map_values(|s: SectionView| s.id) + vr.map_values(|s: SectionView| s.id));
        lemma_first_append(seq![ss[0]] + kids, vr);
        lemma_first_append(seq![ss[0]], kids);
        assert((seq![ss[0]] + kids).drop_first() =~= kids);
        assert(seq![ss[0]].drop_first() =~= Seq::<SectionView>::empty());
        if !ss[0].folded {
        } else {
            assert(first_file_or_hunk(kids) is None);
        }
    } else {
        assert(visible_sections(ss).map_values(|s: SectionView| s.id) =~= Seq::<Seq<char>>::empty());
    }
}

/// Moving down then up returns to a visible cursor that is not on the
/// last visible section, when the visible ids are distinct.
pub proof fn lemma_down_then_up(ids: Seq<Seq<char>>, c: Seq<char>)
    requires
        ids.no_duplicates(),
        ids.contains(c),
        ids.last() != c,
    ensures
        moved_up(ids, moved_down(ids, Some(c))) == Some(c),
{
    lemma_index_of(ids, c);
    assert(index_of(ids, c) is Some) by {
        let k = choose|k: int| 0 <= k < ids.len() && ids[k] == c;
    }
    let p = index_of(ids, c)->0;
    assert(p + 1 < ids.len());
    let d = ids[p + 1];
    lemma_index_of(ids, d);
    let q = index_of(ids, d)->0;
    assert(q == p + 1);
}

/// The tree after moving the cursor down: the same sections (fold state
/// included), the cursor on the next visible id.
pub open spec fn moved_down_tree(v: StatusTreeView) -> StatusTreeView {
    StatusTreeView { sections: v.sections, cursor: moved_down(visible_ids(v.sections), v.cursor) }
}

/// The tree after moving the cursor up: the same sections (fold state
/// included), the cursor on the previous visible id.
pub open spec fn moved_up_tree(v: StatusTreeView) -> StatusTreeView {
    StatusTreeView { sections: v.sections, cursor: moved_up(visible_ids(v.sections), v.cursor) }
}

/// Moving down and then up restores the whole tree, when the cursor rests
/// on a visible section other than the last and the visible ids are
/// distinct.
pub proof fn lemma_move_down_then_up(v: StatusTreeView)
    requires
        visible_ids(v.sections).no_duplicates(),
        v.cursor matches Some(c) && visible_ids(v.sections).contains(c) && visible_ids(v.sections).last()
            != c,
    ensures
        moved_up_tree(moved_down_tree(v)) == v,
{
    lemma_down_then_up(visible_ids(v.sections), v.cursor->0);
}

/// A refresh keeps fold state: the section found under an id after
/// carrying folds over from `prev` is the fresh one with `prev`'s fold
/// state for that id (its own when `prev` has no such id), and no id
/// appears or disappears.
pub proof fn lemma_fold_state_survives(ss: Seq<SectionView>, prev: Seq<SectionView>, id: Seq<char>)
    ensures
        match find_in(ss, id) {
            None => find_in(carry_folds(ss, prev), id) is None,
            Some(s) => find_in(carry_folds(ss, prev), id) matches Some(x) && x.id == s.id
                && x.heading == s.heading && x.kind == s.kind && x.folded == (match find_in(
                prev,
                id,
            ) {
                Some(p) => p.folded,
                None => s.folded,
            }),
        },
    decreases ss,
{
    if ss.len() > 0 {
        let c = carry_folds(ss, prev);
        let rest = ss.subrange(1, ss.len() as int);
        assert(c.subrange(1, c.len() as int) =~= carry_folds(rest, prev));
        lemma_fold_state_survives(ss[0].children, prev, id);
        lemma_fold_state_survives(rest, prev, id);
    }
}

// ── execution ─────────────────────────────────────────────────────────

/// A deep copy of a section.
fn clone_section(s: &Section) -> (r: Section)
    ensures
        r@ == s@,
    decreases s,
{
    let mut children: Vec<Section> = Vec::new();
    let mut i: usize = 0;
    proof {
        lemma_sections_view(s.children@);
    }
    while i < s.children.len()
        invariant
            i <= s.children@.len(),
            sections_view(children@) == sections_view(s.children@).take(i as int),
            sections_view(s.children@).len() == s.children@.len(),
            forall|k: int|
                0 <= k < s.children@.len() ==> #[trigger] sections_view(s.children@)[k]
                    == section_view(s.children@[k]),
        decreases s.children@.len() - i,
    {
        proof {
            assert(decreases_to!(s => s.children));
            assert(decreases_to!(s.children => s.children@));
            assert(decreases_to!(s.children@ => s.children@[i as int]));
        }
        let c = clone_section(&s.children[i]);
        proof {
            lemma_sections_view_push(children@, c);
        }
        children.push(c);
        i = i + 1;
        assert(sections_view(children@) =~= sections_view(s.children@).take(i as int));
    }
    assert(sections_view(s.children@).take(i as int) =~= sections_view(s.children@));
    Section {
        id: s.id.clone(),
        heading: s.heading.clone(),
        kind: s.kind,
        side: s.side,
        path: opt_clone(&s.path),
        orig: opt_clone(&s.orig),
        hunk_new_start: s.hunk_new_start,
        folded: s.folded,
        body: copy_lines(&s.body),
        children,
    }
}

impl Clone for Section {
    /// A deep copy with the same value.
    fn clone(&self) -> (r: Self)
        ensures
            r@ == self@,
    {
        clone_section(self)
    }
}

fn opt_clone(o: &Option<String>) -> (r: Option<String>)
    ensures
        opt_view(r) == opt_view(*o),
{
    match o {
        Some(s) => Some(s.clone()),
        None => None,
    }
}

fn append_str(s: &mut String, t: &str)
    ensures
        final(s)@ == old(s)@ + t@,
{
    s.append(t);
}

fn header_section(branch: &Option<BranchInfo>) -> (s: Section)
    ensures
        s@ == spec_header(*branch),
{
    let heading = match branch {
        Some(b) => if b.unborn {
            "## (no commits)".to_owned()
        } else {
            let mut h = "## ".to_owned();
            append_str(&mut h, b.name.as_str());
            h
        },
        None => "## (unknown branch)".to_owned(),
    };
    let s = Section {
        id: "header".to_owned(),
        heading,
        kind: SectionKind::Header,
        side: None,
        path: None,
        orig: None,
        hunk_new_start: None,
        folded: false,
        body: Vec::new(),
        children: Vec::new(),
    };
    assert(lines_view(s.body@) =~= Seq::empty());
    assert(sections_view(s.children@) =~= Seq::empty());
    s
}

fn hunk_section(file_id: &String, side: Side, path: &String, h: &DiffHunk) -> (s: Section)
    ensures
        s@ == spec_hunk(file_id@, side, path@, h@),
{
    let mut id = file_id.clone();
    push_char(&mut id, '#');
    push_decimal(&mut id, h.new_start as u64);
    assert(id@ =~= file_id@ + seq!['#'] + decimal(h.new_start as nat));
    let s = Section {
        id,
        heading: h.header.clone(),
        kind: SectionKind::Hunk,
        side: Some(side),
        path: Some(path.clone()),
        orig: None,
        hunk_new_start: Some(h.new_start),
        folded: false,
        body: copy_lines(&h.lines),
        children: Vec::new(),
    };
    assert(sections_view(s.children@) =~= Seq::empty());
    s
}

fn file_section(group_id: &str, side: Side, f: &FileStatus, diff: Option<&FileDiff>) -> (s: Section)
    ensures
        s@ == spec_file(
            group_id@,
            side,
            *f,
            match diff {
                Some(d) => Some(d@),
                None => None,
            },
        ),
{
    let ghost dv = match diff {
        Some(d) => Some(d@),
        None => None,
    };
    let kind = match side {
        Side::Staged => f.staged,
        Side::Unstaged => f.unstaged,
        Side::Untracked => StatusKind::Unchanged,
    };
    let letter = if side == Side::Untracked {
        '?'
    } else {
        kind.letter()
    };
    let mut heading = String::new();
    push_char(&mut heading, letter);
    push_char(&mut heading, ' ');
    append_str(&mut heading, f.path.as_str());
    match &f.orig {
        Some(o) => {
            append_str(&mut heading, " (was ");
            append_str(&mut heading, o.as_str());
            append_str(&mut heading, ")");
        },
        None => {},
    }
    match diff {
        Some(d) => {
            if d.insertions > 0 || d.deletions > 0 {
                append_str(&mut heading, " (+");
                push_decimal(&mut heading, d.insertions as u64);
                append_str(&mut heading, " -");
                push_decimal(&mut heading, d.deletions as u64);
                append_str(&mut heading, ")");
            }
        },
        None => {},
    }
    assert(heading@ =~= file_heading(side, *f, dv));
    let mut file_id = group_id.to_owned();
    push_char(&mut file_id, ':');
    append_str(&mut file_id, f.path.as_str());
    assert(file_id@ =~= group_id@ + seq![':'] + f.path@);
    let mut children: Vec<Section> = Vec::new();
    match diff {
        Some(d) => {
            let mut i: usize = 0;
            while i < d.hunks.len()
                invariant
                    i <= d.hunks@.len(),
                    sections_view(children@) == spec_hunks(
                        file_id@,
                        side,
                        f.path@,
                        hunks_view(d.hunks@),
                    ).take(i as int),
                decreases d.hunks@.len() - i,
            {
                let c = hunk_section(&file_id, side, &f.path, &d.hunks[i]);
                proof {
                    lemma_sections_view_push(children@, c);
                }
                children.push(c);
                i = i + 1;
                assert(sections_view(children@) =~= spec_hunks(
                    file_id@,
                    side,
                    f.path@,
                    hunks_view(d.hunks@),
                ).take(i as int));
            }
            assert(spec_hunks(file_id@, side, f.path@, hunks_view(d.hunks@)).take(i as int)
                =~= spec_hunks(file_id@, side, f.path@, hunks_view(d.hunks@)));
        },
        None => {
            assert(sections_view(children@) =~= Seq::empty());
        },
    }
    let s = Section {
        id: file_id,
        heading,
        kind: SectionKind::File,
        side: Some(side),
        path: Some(f.path.clone()),
        orig: opt_clone(&f.orig),
        hunk_new_start: None,
        folded: true,
        body: Vec::new(),
        children,
    };
    assert(lines_view(s.body@) =~= Seq::empty());
    s
}

fn diff_group(id: &str, title: &str, status: &RepoStatus, side: Side, diffs: &DiffMap) -> (s: Section)
    ensures
        s@ == spec_group(id@, title@, status.files@, side, diffs@),
{
    let mut children: Vec<Section> = Vec::new();
    let mut i: usize = 0;
    while i < status.files.len()
        invariant
            i <= status.files@.len(),
            sections_view(children@) == spec_files(
                id@,
                side,
                status.files@.take(i as int),
                diffs@,
            ),
        decreases status.files@.len() - i,
    {
        let f = &status.files[i];
        proof {
            assert(status.files@.take(i + 1).drop_last() =~= status.files@.take(i as int));
        }
        let here = match side {
            Side::Staged => f.is_staged(),
            Side::Unstaged => f.is_unstaged(),
            Side::Untracked => f.untracked,
        };
        if here {
            let d = diffs.get(f.path.as_str());
            let c = file_section(id, side, f, d);
            proof {
                lemma_sections_view_push(children@, c);
            }
            children.push(c);
        }
        i = i + 1;
    }
    assert(status.files@.take(i as int) =~= status.files@);
    let s = Section {
        id: id.to_owned(),
        heading: title.to_owned(),
        kind: SectionKind::Group,
        side: Some(side),
        path: None,
        orig: None,
        hunk_new_start: None,
        folded: false,
        body: Vec::new(),
        children,
    };
    assert(lines_view(s.body@) =~= Seq::empty());
    s
}

/// The first section (depth-first) with id `id`.
fn find_by_id<'a>(sections: &'a Vec<Section>, id: &String) -> (r: Option<&'a Section>)
    ensures
        match r {
            Some(s) => find_in(sections_view(sections@), id@) == Some(s@),
            None => find_in(sections_view(sections@), id@) is None,
        },
    decreases sections@,
{
    let ghost v = sections_view(sections@);
    proof {
        lemma_sections_view(sections@);
        assert(v.subrange(0, v.len() as int) =~= v);
    }
    let mut i: usize = 0;
    while i < sections.len()
        invariant
            i <= sections@.len(),
            v == sections_view(sections@),
            v.len() == sections@.len(),
            forall|k: int| 0 <= k < sections@.len() ==> #[trigger] v[k] == section_view(sections@[k]),
            find_in(v, id@) == find_in(v.subrange(i as int, v.len() as int), id@),
        decreases sections@.len() - i,
    {
        let s = &sections[i];
        proof {
            let sub = v.subrange(i as int, v.len() as int);
            assert(sub[0] == v[i as int]);
            assert(sub.subrange(1, sub.len() as int) =~= v.subrange(i + 1, v.len() as int));
            assert(decreases_to!(sections@ => sections@[i as int]));
        }
        if s.id == *id {
            return Some(s);
        }
        match find_by_id(&s.children, id) {
            Some(c) => {
                return Some(c);
            },
            None => {},
        }
        i = i + 1;
    }
    None
}

/// Append the visible ids of `ss` (depth-first, folds respected).
fn collect_visible_ids(ss: &Vec<Section>, out: &mut Vec<String>)
    ensures
        strings_view(final(out)@) == strings_view(old(out)@)
            + visible_ids(sections_view(ss@)),
    decreases ss@,
{
    let ghost v = sections_view(ss@);
    proof {
        lemma_sections_view(ss@);
        assert(v.subrange(0, v.len() as int) =~= v);
        assert(strings_view(old(out)@) + visible_ids(v) =~= strings_view(old(out)@) + visible_ids(v.subrange(0, v.len() as int)));
    }
    let mut i: usize = 0;
    while i < ss.len()
        invariant
            i <= ss@.len(),
            v == sections_view(ss@),
            v.len() == ss@.len(),
            forall|k: int| 0 <= k < ss@.len() ==> #[trigger] v[k] == section_view(ss@[k]),
            strings_view(out@) + visible_ids(v.subrange(i as int, v.len() as int))
                == strings_view(old(out)@) + visible_ids(v),
        decreases ss@.len() - i,
    {
        let s = &ss[i];
        let ghost sub = v.subrange(i as int, v.len() as int);
        let ghost before = strings_view(out@);
        proof {
            assert(sub[0] == v[i as int]);
            assert(sub.subrange(1, sub.len() as int) =~= v.subrange(i + 1, v.len() as int));
            assert(decreases_to!(ss@ => ss@[i as int]));
        }
        out.push(s.id.clone());
        assert(strings_view(out@) =~= before.push(s.id@));
        if !s.folded {
            collect_visible_ids(&s.children, out);
        }
        i = i + 1;
        assert(strings_view(out@) + visible_ids(v.subrange(i as int, v.len() as int))
            =~= before + visible_ids(sub));
    }
    assert(v.subrange(i as int, v.len() as int) =~= Seq::<SectionView>::empty());
    assert(strings_view(out@) + Seq::<Seq<char>>::empty() =~= strings_view(out@));
}

/// The first addressable (file or hunk) section's id.
fn first_addressable_id(ss: &Vec<Section>) -> (r: Option<String>)
    ensures
        opt_view(r) == first_addressable(sections_view(ss@)),
    decreases ss@,
{
    let ghost v = sections_view(ss@);
    proof {
        lemma_sections_view(ss@);
        assert(v.subrange(0, v.len() as int) =~= v);
    }
    let mut i: usize = 0;
    while i < ss.len()
        invariant
            i <= ss@.len(),
            v == sections_view(ss@),
            v.len() == ss@.len(),
            forall|k: int| 0 <= k < ss@.len() ==> #[trigger] v[k] == section_view(ss@[k]),
            first_addressable(v) == first_addressable(v.subrange(i as int, v.len() as int)),
        decreases ss@.len() - i,
    {
        let s = &ss[i];
        proof {
            let sub = v.subrange(i as int, v.len() as int);
            assert(sub[0] == v[i as int]);
            assert(sub.subrange(1, sub.len() as int) =~= v.subrange(i + 1, v.len() as int));
            assert(decreases_to!(ss@ => ss@[i as int]));
        }
        if s.kind == SectionKind::File || s.kind == SectionKind::Hunk {
            return Some(s.id.clone());
        }
        if !s.folded {
            match first_addressable_id(&s.children) {
                Some(c) => {
                    return Some(c);
                },
                None => {},
            }
        }
        i = i + 1;
    }
    None
}

/// Carry the fold state of `prev` over to `ss` (by id).
fn set_fold(ss: Vec<Section>, prev: &Vec<Section>) -> (r: Vec<Section>)
    ensures
        sections_view(r@) == carry_folds(sections_view(ss@), sections_view(prev@)),
    decreases ss@,
{
    let ghost v = sections_view(ss@);
    let ghost pv = sections_view(prev@);
    proof {
        lemma_sections_view(ss@);
        assert(v.subrange(0, v.len() as int) =~= v);
        assert(sections_view(Seq::<Section>::empty()) =~= Seq::empty());
    }
    let ghost orig = ss@;
    let mut rest = ss;
    let mut out: Vec<Section> = Vec::new();
    let mut i: usize = 0;
    let n = rest.len();
    while i < n
        invariant
            n == orig.len(),
            orig == ss@,
            i <= n,
            rest@ == orig.subrange(i as int, n as int),
            v == sections_view(orig),
            pv == sections_view(prev@),
            v.len() == orig.len(),
            forall|k: int| 0 <= k < orig.len() ==> #[trigger] v[k] == section_view(orig[k]),
            sections_view(out@) + carry_folds(v.subrange(i as int, n as int), pv) == carry_folds(
                v,
                pv,
            ),
        decreases n - i,
    {
        let mut s = rest.remove(0);
        let ghost sub = v.subrange(i as int, n as int);
        proof {
            assert(s == orig[i as int]);
            assert(sub[0] == v[i as int]);
            assert(sub.subrange(1, sub.len() as int) =~= v.subrange(i + 1, n as int));
            assert(rest@ =~= orig.subrange(i + 1, n as int));
            assert(decreases_to!(orig => orig[i as int]));
        }
        let ghost sv = s@;
        let mut kids: Vec<Section> = Vec::new();
        std::mem::swap(&mut kids, &mut s.children);
        proof {
            assert(kids == orig[i as int].children);
            assert(decreases_to!(orig => orig[i as int]));
            assert(decreases_to!(orig[i as int] => orig[i as int].children));
            assert(decreases_to!(orig[i as int].children => orig[i as int].children@));
            assert(decreases_to!(orig => kids@));
        }
        let kids2 = set_fold(kids, prev);
        s.children = kids2;
        match find_by_id(prev, &s.id) {
            Some(p) => {
                s.folded = p.folded;
            },
            None => {},
        }
        let ghost before = sections_view(out@);
        proof {
            lemma_sections_view_push(out@, s);
            assert(s@ == SectionView {
                folded: match find_in(pv, sv.id) {
                    Some(p) => p.folded,
                    None => sv.folded,
                },
                children: carry_folds(sv.children, pv),
                ..sv
            });
        }
        out.push(s);
        i = i + 1;
        assert(sections_view(out@) + carry_folds(v.subrange(i as int, n as int), pv) =~= before
            + carry_folds(sub, pv));
    }
    assert(v.subrange(i as int, n as int) =~= Seq::<SectionView>::empty());
    assert(sections_view(out@) + Seq::<SectionView>::empty() =~= sections_view(out@));
    out
}

/// Flip the fold state of the first section (depth-first) with id `id`;
/// also reports whether one was found.
fn toggle_list(ss: Vec<Section>, id: &String) -> (r: (Vec<Section>, bool))
    ensures
        sections_view(r.0@) == toggled(sections_view(ss@), id@),
        r.1 == (find_in(sections_view(ss@), id@) is Some),
    decreases ss@,
{
    let ghost v = sections_view(ss@);
    proof {
        lemma_sections_view(ss@);
        assert(v.subrange(0, v.len() as int) =~= v);
        assert(sections_view(Seq::<Section>::empty()) =~= Seq::empty());
    }
    let ghost orig = ss@;
    let mut rest = ss;
    let mut out: Vec<Section> = Vec::new();
    let mut i: usize = 0;
    let n = rest.len();
    let mut found = false;
    while i < n && !found
        invariant
            n == orig.len(),
            orig == ss@,
            i <= n,
            rest@ == orig.subrange(i as int, n as int),
            v == sections_view(orig),
            v.len() == orig.len(),
            forall|k: int| 0 <= k < orig.len() ==> #[trigger] v[k] == section_view(orig[k]),
            !found ==> sections_view(out@) + toggled(v.subrange(i as int, n as int), id@) == toggled(
                v,
                id@,
            ),
            !found ==> (find_in(v, id@) is Some) == (find_in(
                v.subrange(i as int, n as int),
                id@,
            ) is Some),
            found ==> sections_view(out@) + sections_view(rest@) == toggled(v, id@),
            found ==> find_in(v, id@) is Some,
        decreases n - i,
    {
        let mut s = rest.remove(0);
        let ghost sub = v.subrange(i as int, n as int);
        let ghost sv = s@;
        proof {
            assert(s == orig[i as int]);
            assert(sub[0] == v[i as int]);
            assert(sub.subrange(1, sub.len() as int) =~= v.subrange(i + 1, n as int));
            assert(rest@ =~= orig.subrange(i + 1, n as int));
            lemma_sections_view_subrange(orig, i + 1);
            assert(decreases_to!(orig => orig[i as int]));
        }
        let ghost before = sections_view(out@);
        if s.id == *id {
            s.folded = !s.folded;
            found = true;
            proof {
                lemma_sections_view_push(out@, s);
            }
            out.push(s);
            assert(sections_view(out@) + sections_view(rest@) =~= before + toggled(sub, id@));
        } else {
            let mut kids: Vec<Section> = Vec::new();
            std::mem::swap(&mut kids, &mut s.children);
            proof {
                assert(kids == orig[i as int].children);
                assert(decreases_to!(orig => orig[i as int]));
                assert(decreases_to!(orig[i as int] => orig[i as int].children));
                assert(decreases_to!(orig[i as int].children => orig[i as int].children@));
                assert(decreases_to!(orig => kids@));
            }
            let (kids2, hit) = toggle_list(kids, id);
            s.children = kids2;
            proof {
                lemma_sections_view_push(out@, s);
            }
            out.push(s);
            if hit {
                found = true;
                assert(sections_view(out@) + sections_view(rest@) =~= before + toggled(sub, id@));
            } else {
                proof {
                    lemma_toggled_absent(sv.children, id@);
                }
                assert(s@ == sv);
            }
        }
        i = i + 1;
        assert(!found ==> sections_view(out@) + toggled(v.subrange(i as int, n as int), id@)
            =~= before + toggled(sub, id@));
    }
    if !found {
        assert(v.subrange(i as int, n as int) =~= Seq::<SectionView>::empty());
        assert(sections_view(out@) + Seq::<SectionView>::empty() =~= sections_view(out@));
    } else {
        proof {
            lemma_sections_view(out@ + rest@);
            lemma_sections_view(out@);
            lemma_sections_view(rest@);
            assert(sections_view(out@ + rest@) =~= sections_view(out@) + sections_view(rest@));
        }
    }
    let mut tail = rest;
    out.append(&mut tail);
    (out, found)
}

/// Append `ind + two spaces`.
fn deeper(ind: &String) -> (r: String)
    ensures
        r@ == ind@ + two_spaces(),
{
    let mut r = ind.clone();
    push_char(&mut r, ' ');
    push_char(&mut r, ' ');
    r
}

fn cursor_is(cursor: &Option<String>, id: &String) -> (b: bool)
    ensures
        b == is_cursor(opt_view(*cursor), id@),
{
    match cursor {
        Some(c) => crate::text::str_eq(c.as_str(), id.as_str()),
        None => false,
    }
}

/// Append the rows of `ss` under indentation `ind`.
fn render(ss: &Vec<Section>, cursor: &Option<String>, ind: &String, out: &mut Vec<MagitRow>)
    ensures
        rows_view(final(out)@) == rows_view(old(out)@) + render_rows(
            sections_view(ss@),
            opt_view(*cursor),
            ind@,
        ),
    decreases ss@,
{
    let ghost v = sections_view(ss@);
    let ghost cv = opt_view(*cursor);
    proof {
        lemma_sections_view(ss@);
        assert(v.subrange(0, v.len() as int) =~= v);
    }
    let mut i: usize = 0;
    while i < ss.len()
        invariant
            i <= ss@.len(),
            v == sections_view(ss@),
            cv == opt_view(*cursor),
            v.len() == ss@.len(),
            forall|k: int| 0 <= k < ss@.len() ==> #[trigger] v[k] == section_view(ss@[k]),
            rows_view(out@) + render_rows(v.subrange(i as int, v.len() as int), cv, ind@)
                == rows_view(old(out)@) + render_rows(v, cv, ind@),
        decreases ss@.len() - i,
    {
        let s = &ss[i];
        let ghost sub = v.subrange(i as int, v.len() as int);
        let ghost before = rows_view(out@);
        proof {
            assert(sub[0] == v[i as int]);
            assert(sub.subrange(1, sub.len() as int) =~= v.subrange(i + 1, v.len() as int));
            assert(decreases_to!(ss@ => ss@[i as int]));
        }
        let mut text = ind.clone();
        append_str(&mut text, s.heading.as_str());
        let role = match s.kind {
            SectionKind::Header => RowRole::Branch,
            SectionKind::Group => RowRole::Group,
            SectionKind::File => RowRole::File,
            SectionKind::Hunk => RowRole::HunkHeader,
        };
        let selected = cursor_is(cursor, &s.id);
        out.push(MagitRow { text, role, selected });
        assert(rows_view(out@) =~= before.push(rows_view(out@).last()));
        let ghost after_head = rows_view(out@);
        if !s.folded {
            let child_ind = deeper(ind);
            render(&s.children, cursor, &child_ind, out);
            let ghost after_kids = rows_view(out@);
            let mut j: usize = 0;
            while j < s.body.len()
                invariant
                    j <= s.body@.len(),
                    rows_view(out@) == after_kids + body_rows(lines_view(s.body@), ind@).take(
                        j as int,
                    ),
                decreases s.body@.len() - j,
            {
                let line = &s.body[j];
                let mut t = ind.clone();
                push_char(&mut t, ' ');
                push_char(&mut t, ' ');
                push_char(&mut t, line.origin.marker());
                append_str(&mut t, line.content.as_str());
                let r = match line.origin {
                    DiffOrigin::Addition => RowRole::DiffAdd,
                    DiffOrigin::Deletion => RowRole::DiffDelete,
                    DiffOrigin::Context => RowRole::DiffContext,
                };
                let ghost prev_rows = rows_view(out@);
                proof {
                    assert(lines_view(s.body@)[j as int] == line@);
                    assert(t@ =~= ind@ + two_spaces() + seq![origin_marker(line.origin)]
                        + line.content@);
                }
                out.push(MagitRow { text: t, role: r, selected: false });
                assert(rows_view(out@) =~= prev_rows.push(out@.last()@));
                assert(out@.last()@ == body_rows(lines_view(s.body@), ind@)[j as int]);
                assert(body_rows(lines_view(s.body@), ind@).take(j + 1) =~= body_rows(
                    lines_view(s.body@),
                    ind@,
                ).take(j as int).push(body_rows(lines_view(s.body@), ind@)[j as int]));
                j = j + 1;
                assert(rows_view(out@) =~= after_kids + body_rows(lines_view(s.body@), ind@).take(
                    j as int,
                ));
            }
            assert(body_rows(lines_view(s.body@), ind@).take(j as int) =~= body_rows(
                lines_view(s.body@),
                ind@,
            ));
        }
        i = i + 1;
        assert(rows_view(out@) + render_rows(v.subrange(i as int, v.len() as int), cv, ind@)
            =~= before + render_rows(sub, cv, ind@));
    }
    assert(v.subrange(i as int, v.len() as int) =~= Seq::<SectionView>::empty());
    assert(rows_view(out@) + Seq::<RowView>::empty() =~= rows_view(out@));
}

/// The ids of every visible section, in render order.
fn collect_all_visible(sections: &Vec<Section>) -> (ids: Vec<String>)
    ensures
        strings_view(ids@) == visible_ids(sections_view(sections@)),
{
    let mut out: Vec<String> = Vec::new();
    collect_visible_ids(sections, &mut out);
    assert(strings_view(out@) =~= visible_ids(sections_view(sections@)));
    out
}

/// The cursor of a (re)built tree: the carried-over cursor when its
/// section is still visible, else the first visible file/hunk section.
fn resolve_cursor(sections: &Vec<Section>, prev: Option<&StatusTree>) -> (r: Option<String>)
    ensures
        opt_view(r) == spec_cursor(
            sections_view(sections@),
            match prev {
                Some(p) => Some(p@),
                None => None,
            },
        ),
{
    match prev {
        Some(p) => match &p.cursor {
            Some(c) => {
                let ids = collect_all_visible(sections);
                if contains_id(&ids, c) {
                    Some(c.clone())
                } else {
                    first_addressable_id(sections)
                }
            },
            None => first_addressable_id(sections),
        },
        None => first_addressable_id(sections),
    }
}

impl StatusTree {
    /// Build a status section tree from a status snapshot plus per-file
    /// diffs (staged and unstaged). `prev`, when present, supplies the fold
    /// state and cursor to carry over (magit preserves visibility on
    /// refresh).
    pub fn build(status: &RepoStatus, staged: &DiffMap, unstaged: &DiffMap, prev: Option<&StatusTree>) -> (t: Self)
        ensures
            t@.sections == spec_built(
                *status,
                staged@,
                unstaged@,
                match prev {
                    Some(p) => Some(p@),
                    None => None,
                },
            ),
            t@.cursor == spec_cursor(
                t@.sections,
                match prev {
                    Some(p) => Some(p@),
                    None => None,
                },
            ),
            t@.cursor matches Some(c) ==> visible_ids(t@.sections).contains(c),
            t@.sections.len() == 4,
            t@.sections[1].children.len() == count_where(status.files@, staged_pred()),
            t@.sections[2].children.len() == count_where(status.files@, unstaged_pred()),
            t@.sections[3].children.len() == count_where(status.files@, untracked_pred()),
    {
        let empty = DiffMap::new();
        let mut sections: Vec<Section> = Vec::new();
        sections.push(header_section(&status.branch));
        sections.push(diff_group("staged", "Staged changes", status, Side::Staged, staged));
        sections.push(diff_group("unstaged", "Unstaged changes", status, Side::Unstaged, unstaged));
        sections.push(diff_group("untracked", "Untracked files", status, Side::Untracked, &empty));
        proof {
            lemma_sections_view(sections@);
            assert(sections_view(sections@) =~= spec_fresh(*status, staged@, unstaged@));
        }
        let sections = match prev {
            Some(p) => set_fold(sections, &p.sections),
            None => sections,
        };
        let cursor = resolve_cursor(&sections, prev);
        proof {
            lemma_group_counts(
                *status,
                staged@,
                unstaged@,
                match prev {
                    Some(p) => Some(p@),
                    None => None,
                },
            );
            lemma_cursor_visible(
                sections_view(sections@),
                match prev {
                    Some(p) => Some(p@),
                    None => None,
                },
            );
        }
        StatusTree { sections, cursor }
    }

    /// The section under the cursor, if any.
    pub fn cursor_section(&self) -> (r: Option<&Section>)
        ensures
            match self@.cursor {
                Some(c) => match r {
                    Some(s) => find_in(self@.sections, c) == Some(s@),
                    None => find_in(self@.sections, c) is None,
                },
                None => r is None,
            },
    {
        match &self.cursor {
            Some(c) => find_by_id(&self.sections, c),
            None => None,
        }
    }

    /// The cursor's dwim fields (path, kind, side, …), if any.
    pub fn cursor_target(&self) -> (r: Option<CursorTarget>)
        ensures
            match self@.cursor {
                Some(c) => match find_in(self@.sections, c) {
                    Some(s) => r matches Some(t) && opt_view(t.path) == s.path && t.kind == s.kind
                        && t.side == s.side && opt_view(t.orig) == s.orig && t.hunk_new_start
                        == s.hunk_new_start,
                    None => r is None,
                },
                None => r is None,
            },
    {
        match self.cursor_section() {
            Some(s) => Some(
                CursorTarget {
                    path: opt_clone(&s.path),
                    kind: s.kind,
                    side: s.side,
                    orig: opt_clone(&s.orig),
                    hunk_new_start: s.hunk_new_start,
                },
            ),
            None => None,
        }
    }

    /// Move the cursor to the next visible section (a no-op at the last
    /// section; onto the first visible section when the cursor is not on
    /// one).
    pub fn move_down(&mut self)
        ensures
            final(self)@.sections == old(self)@.sections,
            final(self)@.cursor == moved_down(visible_ids(old(self)@.sections), old(self)@.cursor),
            final(self)@ == moved_down_tree(old(self)@),
    {
        let ids = collect_all_visible(&self.sections);
        let ghost iv = strings_view(ids@);
        let pos = match &self.cursor {
            Some(c) => position_of(&ids, c),
            None => None,
        };
        proof {
            if self@.cursor is Some {
                lemma_index_of(iv, self@.cursor->0);
            }
        }
        match pos {
            Some(p) => {
                if p + 1 < ids.len() {
                    self.cursor = Some(ids[p + 1].clone());
                    assert(iv[p + 1] == ids@[p + 1]@);
                }
            },
            None => {
                if ids.len() > 0 {
                    self.cursor = Some(ids[0].clone());
                    assert(iv[0] == ids@[0]@);
                }
            },
        }
    }

    /// Move the cursor to the previous visible section (a no-op at the
    /// first).
    pub fn move_up(&mut self)
        ensures
            final(self)@.sections == old(self)@.sections,
            final(self)@.cursor == moved_up(visible_ids(old(self)@.sections), old(self)@.cursor),
            final(self)@ == moved_up_tree(old(self)@),
    {
        let ids = collect_all_visible(&self.sections);
        let ghost iv = strings_view(ids@);
        let pos = match &self.cursor {
            Some(c) => position_of(&ids, c),
            None => None,
        };
        proof {
            if self@.cursor is Some {
                lemma_index_of(iv, self@.cursor->0);
            }
        }
        match pos {
            Some(p) => {
                if p > 0 {
                    self.cursor = Some(ids[p - 1].clone());
                    assert(iv[p - 1] == ids@[p - 1]@);
                }
            },
            None => {},
        }
    }

    /// Toggle the fold state of the section under the cursor.
    pub fn toggle_fold(&mut self)
        ensures
            final(self)@ == toggled_tree(old(self)@),
            final(self)@.cursor == old(self)@.cursor,
            final(self)@.sections == match old(self)@.cursor {
                Some(c) => toggled(old(self)@.sections, c),
                None => old(self)@.sections,
            },
    {
        match &self.cursor {
            Some(c) => {
                let c2 = c.clone();
                let mut ss: Vec<Section> = Vec::new();
                std::mem::swap(&mut ss, &mut self.sections);
                let (t, _) = toggle_list(ss, &c2);
                self.sections = t;
            },
            None => {},
        }
    }

    /// The flat list of display rows for the current fold state, in render
    /// order. The cursor's section is marked `selected`.
    pub fn visible_rows(&self) -> (rows: Vec<MagitRow>)
        ensures
            rows_view(rows@) == render_rows(self@.sections, self@.cursor, Seq::empty()),
    {
        let mut out: Vec<MagitRow> = Vec::new();
        let ind = String::new();
        render(&self.sections, &self.cursor, &ind, &mut out);
        assert(rows_view(out@) =~= render_rows(self@.sections, self@.cursor, Seq::empty()));
        out
    }

    /// The top-level sections.
    pub fn sections(&self) -> (r: &Vec<Section>)
        ensures
            sections_view(r@) == self@.sections,
    {
        &self.sections
    }

    /// The id of the section under the cursor, if any.
    pub fn cursor(&self) -> (r: Option<&str>)
        ensures
            match r {
                Some(c) => self@.cursor == Some(c@),
                None => self@.cursor is None,
            },
    {
        match &self.cursor {
            Some(c) => Some(c.as_str()),
            None => None,
        }
    }
}

/// Whether `ids` holds `x`.
fn contains_id(ids: &Vec<String>, x: &String) -> (b: bool)
    ensures
        b == strings_view(ids@).contains(x@),
{
    let ghost iv = strings_view(ids@);
    let mut i: usize = 0;
    while i < ids.len()
        invariant
            i <= ids@.len(),
            iv == strings_view(ids@),
            forall|k: int| 0 <= k < i ==> iv[k] != x@,
        decreases ids@.len() - i,
    {
        if ids[i] == *x {
            assert(iv[i as int] == x@);
            return true;
        }
        i = i + 1;
    }
    false
}

/// The first index of `x` in `ids`.
fn position_of(ids: &Vec<String>, x: &String) -> (r: Option<usize>)
    ensures
        match r {
            Some(p) => index_of(strings_view(ids@), x@) == Some(p as int),
            None => index_of(strings_view(ids@), x@) is None,
        },
{
    let ghost iv = strings_view(ids@);
    proof {
        lemma_index_of(iv, x@);
    }
    let mut i: usize = 0;
    while i < ids.len()
        invariant
            i <= ids@.len(),
            iv == strings_view(ids@),
            forall|k: int| 0 <= k < i ==> iv[k] != x@,
            index_of(iv, x@) matches Some(p) ==> p >= i,
        decreases ids@.len() - i,
    {
        proof {
            lemma_index_of(iv, x@);
        }
        if ids[i] == *x {
            assert(iv[i as int] == x@);
            return Some(i);
        }
        i = i + 1;
    }
    None
}

} // verus!
