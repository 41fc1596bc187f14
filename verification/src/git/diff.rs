//! Plain diff data (unified, per-file) and the patch extraction the
//! repository wrapper runs over the stream of libgit2 patch lines.

use vstd::prelude::*;
use crate::text::{from_utf8_lossy, push_char, utf8_lossy};

verus! {

broadcast use vstd::string::group_string_axioms;

/// Which side of a diff: the old/left side and the new/right side.
#[derive(Clone, Copy, Debug, PartialEq, Eq, Structural)]
pub enum DiffSide {
    /// `git diff --cached`: HEAD (old) vs index (new).
    Staged,
    /// `git diff`: index (old) vs workdir (new).
    Unstaged,
}

/// The origin of a diff body line.
#[derive(Clone, Copy, Debug, PartialEq, Eq, Structural)]
pub enum DiffOrigin {
    Context,
    Addition,
    Deletion,
}

/// The leading character of a unified-diff line of this origin.
pub open spec fn origin_marker(o: DiffOrigin) -> char {
    match o {
        DiffOrigin::Context => ' ',
        DiffOrigin::Addition => '+',
        DiffOrigin::Deletion => '-',
    }
}

impl DiffOrigin {
    /// The leading character of a unified-diff line.
    pub fn marker(self) -> (c: char)
        ensures
            c == origin_marker(self),
    {
        match self {
            DiffOrigin::Context => ' ',
            DiffOrigin::Addition => '+',
            DiffOrigin::Deletion => '-',
        }
    }
}

/// One line of a hunk body. `content` is the line text without its
/// trailing newline.
#[derive(Clone, Debug, PartialEq, Eq)]
pub struct DiffLine {
    pub origin: DiffOrigin,
    pub content: String,
    pub old_lineno: Option<u32>,
    pub new_lineno: Option<u32>,
}

/// The mathematical value of a diff line.
pub struct DiffLineView {
    pub origin: DiffOrigin,
    pub content: Seq<char>,
    pub old_lineno: Option<u32>,
    pub new_lineno: Option<u32>,
}

impl View for DiffLine {
    type V = DiffLineView;

    open spec fn view(&self) -> DiffLineView {
        DiffLineView {
            origin: self.origin,
            content: self.content@,
            old_lineno: self.old_lineno,
            new_lineno: self.new_lineno,
        }
    }
}

/// One hunk: its `@@ … @@` header plus its body lines.
#[derive(Clone, Debug, PartialEq, Eq)]
pub struct DiffHunk {
    /// The `@@ -a,b +c,d @@` header text.
    pub header: String,
    /// 1-based line in the old file where the hunk starts.
    pub old_start: u32,
    pub old_lines: u32,
    /// 1-based line in the new file where the hunk starts (used as the
    /// hunk identity for staging).
    pub new_start: u32,
    pub new_lines: u32,
    pub lines: Vec<DiffLine>,
    /// Whether the old file's last line — when it falls in this hunk —
    /// ends with a trailing newline (the "no newline" marker line is not a
    /// content line and is not stored in `lines`).
    pub old_ends_nl: bool,
}

/// The mathematical value of a hunk.
pub struct DiffHunkView {
    pub header: Seq<char>,
    pub old_start: u32,
    pub old_lines: u32,
    pub new_start: u32,
    pub new_lines: u32,
    pub lines: Seq<DiffLineView>,
    pub old_ends_nl: bool,
}

/// The views of a sequence of diff lines.
pub open spec fn lines_view(ls: Seq<DiffLine>) -> Seq<DiffLineView> {
    ls.map_values(|l: DiffLine| l@)
}

impl View for DiffHunk {
    type V = DiffHunkView;

    open spec fn view(&self) -> DiffHunkView {
        DiffHunkView {
            header: self.header@,
            old_start: self.old_start,
            old_lines: self.old_lines,
            new_start: self.new_start,
            new_lines: self.new_lines,
            lines: lines_view(self.lines@),
            old_ends_nl: self.old_ends_nl,
        }
    }
}

/// The unified diff of a single file on one side (staged or unstaged).
#[derive(Clone, Debug, Default, PartialEq, Eq)]
pub struct FileDiff {
    pub path: String,
    /// True when the change is a binary (no text hunks are extracted).
    pub binary: bool,
    pub insertions: u32,
    pub deletions: u32,
    pub hunks: Vec<DiffHunk>,
}

/// The mathematical value of a file diff.
pub struct FileDiffView {
    pub path: Seq<char>,
    pub binary: bool,
    pub insertions: nat,
    pub deletions: nat,
    pub hunks: Seq<DiffHunkView>,
}

/// The views of a sequence of hunks.
pub open spec fn hunks_view(hs: Seq<DiffHunk>) -> Seq<DiffHunkView> {
    hs.map_values(|h: DiffHunk| h@)
}

impl View for FileDiff {
    type V = FileDiffView;

    open spec fn view(&self) -> FileDiffView {
        FileDiffView {
            path: self.path@,
            binary: self.binary,
            insertions: self.insertions as nat,
            deletions: self.deletions as nat,
            hunks: hunks_view(self.hunks@),
        }
    }
}

/// A copy of a diff line with the same value.
pub fn copy_line(l: &DiffLine) -> (r: DiffLine)
    ensures
        r@ == l@,
{
    DiffLine {
        origin: l.origin,
        content: l.content.clone(),
        old_lineno: l.old_lineno,
        new_lineno: l.new_lineno,
    }
}

/// A copy of a sequence of diff lines with the same values.
pub fn copy_lines(ls: &Vec<DiffLine>) -> (r: Vec<DiffLine>)
    ensures
        lines_view(r@) == lines_view(ls@),
{
    let mut r: Vec<DiffLine> = Vec::new();
    let mut i: usize = 0;
    while i < ls.len()
        invariant
            i <= ls@.len(),
            r@.len() == i,
            forall|j: int| 0 <= j < i ==> (#[trigger] r@[j])@ == ls@[j]@,
        decreases ls@.len() - i,
    {
        r.push(copy_line(&ls[i]));
        i = i + 1;
    }
    assert(lines_view(r@) =~= lines_view(ls@));
    r
}

/// A copy of a hunk with the same value.
pub fn copy_hunk(h: &DiffHunk) -> (r: DiffHunk)
    ensures
        r@ == h@,
{
    DiffHunk {
        header: h.header.clone(),
        old_start: h.old_start,
        old_lines: h.old_lines,
        new_start: h.new_start,
        new_lines: h.new_lines,
        lines: copy_lines(&h.lines),
        old_ends_nl: h.old_ends_nl,
    }
}

// ── patch extraction ───────────────────────────────────────────────────

/// One line of a libgit2 patch print, as plain values: the line's type
/// and, where it carries them, its raw content and hunk/line numbers.
#[derive(Clone, Debug, PartialEq, Eq)]
pub enum PatchLine {
    /// A `diff --git` / `index` / `---` / `+++` line.
    FileHeader,
    /// The "Binary files differ" line.
    Binary,
    /// A hunk's `@@` header line and the hunk's ranges.
    HunkHeader { content: Vec<u8>, old_start: u32, old_lines: u32, new_start: u32, new_lines: u32 },
    /// "No newline at end of file" on the new side.
    AddEofNl,
    /// "No newline at end of file" on the old side.
    DeleteEofNl,
    /// "No newline at end of file" on both sides.
    ContextEofNl,
    /// A body line (context, addition, or deletion).
    Body { origin: DiffOrigin, content: Vec<u8>, old_lineno: Option<u32>, new_lineno: Option<u32> },
}

/// `s` without one trailing `\n`, if it has one.
pub open spec fn strip_one_newline(s: Seq<char>) -> Seq<char> {
    if s.len() > 0 && s.last() == '\n' {
        s.drop_last()
    } else {
        s
    }
}

/// Patch `content()` includes the trailing newline; decode it (lossily)
/// and strip a single `\n` so the stored line text is clean.
pub fn strip_newline(bytes: &[u8]) -> (r: String)
    ensures
        r@ == strip_one_newline(utf8_lossy(bytes@)),
{
    let s = from_utf8_lossy(bytes);
    let n = s.as_str().unicode_len();
    if n > 0 && s.as_str().get_char(n - 1) == '\n' {
        let t = s.as_str().substring_char(0, n - 1);
        let r = t.to_owned();
        assert(r@ =~= strip_one_newline(utf8_lossy(bytes@)));
        r
    } else {
        s
    }
}

/// The file diff after one more patch line.
pub open spec fn extract_step(d: FileDiffView, e: PatchLine) -> FileDiffView {
    match e {
        PatchLine::FileHeader => d,
        PatchLine::Binary => FileDiffView { binary: true, ..d },
        PatchLine::HunkHeader { content, old_start, old_lines, new_start, new_lines } => FileDiffView {
            hunks: d.hunks.push(
                DiffHunkView {
                    header: strip_one_newline(utf8_lossy(content@)),
                    old_start,
                    old_lines,
                    new_start,
                    new_lines,
                    lines: Seq::empty(),
                    old_ends_nl: true,
                },
            ),
            ..d
        },
        PatchLine::AddEofNl => d,
        PatchLine::DeleteEofNl | PatchLine::ContextEofNl => if d.hunks.len() > 0 {
            FileDiffView {
                hunks: d.hunks.update(
                    d.hunks.len() - 1,
                    DiffHunkView { old_ends_nl: false, ..d.hunks.last() },
                ),
                ..d
            }
        } else {
            d
        },
        PatchLine::Body { origin, content, old_lineno, new_lineno } => if d.hunks.len() > 0 {
            FileDiffView {
                insertions: if origin == DiffOrigin::Addition {
                    d.insertions + 1
                } else {
                    d.insertions
                },
                deletions: if origin == DiffOrigin::Deletion {
                    d.deletions + 1
                } else {
                    d.deletions
                },
                hunks: d.hunks.update(
                    d.hunks.len() - 1,
                    DiffHunkView {
                        lines: d.hunks.last().lines.push(
                            DiffLineView {
                                origin,
                                content: strip_one_newline(utf8_lossy(content@)),
                                old_lineno,
                                new_lineno,
                            },
                        ),
                        ..d.hunks.last()
                    },
                ),
                ..d
            }
        } else {
            d
        },
    }
}

/// The file diff built from a run of patch lines, starting from the
/// empty diff of `path`.
pub open spec fn spec_extract(path: Seq<char>, es: Seq<PatchLine>) -> FileDiffView
    decreases es.len(),
{
    if es.len() == 0 {
        FileDiffView {
            path,
            binary: false,
            insertions: 0,
            deletions: 0,
            hunks: Seq::empty(),
        }
    } else {
        extract_step(spec_extract(path, es.drop_last()), es.last())
    }
}

proof fn lemma_extract_counts(path: Seq<char>, es: Seq<PatchLine>)
    ensures
        spec_extract(path, es).insertions <= es.len(),
        spec_extract(path, es).deletions <= es.len(),
    decreases es.len(),
{
    if es.len() > 0 {
        lemma_extract_counts(path, es.drop_last());
    }
}

/// The number of lines of origin `o` among `ls`.
pub open spec fn lines_of(ls: Seq<DiffLineView>, o: DiffOrigin) -> nat
    decreases ls.len(),
{
    if ls.len() == 0 {
        0
    } else {
        lines_of(ls.drop_last(), o) + if ls.last().origin == o {
            1nat
        } else {
            0nat
        }
    }
}

/// The number of lines of origin `o` over all hunks `hs`.
pub open spec fn hunk_lines_of(hs: Seq<DiffHunkView>, o: DiffOrigin) -> nat
    decreases hs.len(),
{
    if hs.len() == 0 {
        0
    } else {
        hunk_lines_of(hs.drop_last(), o) + lines_of(hs.last().lines, o)
    }
}

/// A file diff's counts are its lines: the insertions are the addition
/// lines of its hunks and the deletions their deletion lines.
pub proof fn lemma_extract_counts_lines(path: Seq<char>, es: Seq<PatchLine>)
    ensures
        spec_extract(path, es).insertions == hunk_lines_of(spec_extract(path, es).hunks, DiffOrigin::Addition),
        spec_extract(path, es).deletions == hunk_lines_of(spec_extract(path, es).hunks, DiffOrigin::Deletion),
    decreases es.len(),
{
    if es.len() > 0 {
        lemma_extract_counts_lines(path, es.drop_last());
        let d = spec_extract(path, es.drop_last());
        let hs = d.hunks;
        match es.last() {
            PatchLine::HunkHeader { content, old_start, old_lines, new_start, new_lines } => {
                let h = spec_extract(path, es).hunks;
                assert(h.drop_last() =~= hs);
            },
            PatchLine::DeleteEofNl | PatchLine::ContextEofNl => {
                if hs.len() > 0 {
                    let h = spec_extract(path, es).hunks;
                    assert(h.drop_last() =~= hs.drop_last());
                }
            },
            PatchLine::Body { origin, content, old_lineno, new_lineno } => {
                if hs.len() > 0 {
                    let h = spec_extract(path, es).hunks;
                    assert(h.drop_last() =~= hs.drop_last());
                    assert(h.last().lines.drop_last() =~= hs.last().lines);
                }
            },
            _ => {},
        }
    }
}

/// Extract a single file's unified diff (hunks + body lines) from the
/// lines of a patch print constrained to that file. File-header lines are
/// dropped; each hunk is captured with its `@@` header and its
/// context/add/delete body lines; a "no newline" marker on the old side
/// clears the current hunk's `old_ends_nl`; body lines before the first
/// hunk are ignored.
pub fn extract(lines: &Vec<PatchLine>, path: &str) -> (d: FileDiff)
    requires
        lines@.len() <= u32::MAX,
    ensures
        d@ == spec_extract(path@, lines@),
{
    let mut file = FileDiff {
        path: path.to_owned(),
        binary: false,
        insertions: 0,
        deletions: 0,
        hunks: Vec::new(),
    };
    assert(hunks_view(file.hunks@) =~= Seq::empty());
    assert(lines@.take(0) =~= Seq::empty());
    let mut i: usize = 0;
    while i < lines.len()
        invariant
            i <= lines@.len(),
            lines@.len() <= u32::MAX,
            file@ == spec_extract(path@, lines@.take(i as int)),
        decreases lines@.len() - i,
    {
        proof {
            assert(lines@.take(i + 1).drop_last() =~= lines@.take(i as int));
            lemma_extract_counts(path@, lines@.take(i as int));
        }
        let ghost before = file@;
        match &lines[i] {
            PatchLine::FileHeader => {},
            PatchLine::Binary => {
                file.binary = true;
            },
            PatchLine::HunkHeader { content, old_start, old_lines, new_start, new_lines } => {
                let header = strip_newline(content.as_slice());
                file.hunks.push(
                    DiffHunk {
                        header,
                        old_start: *old_start,
                        old_lines: *old_lines,
                        new_start: *new_start,
                        new_lines: *new_lines,
                        lines: Vec::new(),
                        old_ends_nl: true,
                    },
                );
                proof {
                    assert(lines_view(Seq::<DiffLine>::empty()) =~= Seq::empty());
                    assert(hunks_view(file.hunks@) =~= before.hunks.push(
                        file.hunks@.last()@,
                    ));
                }
            },
            PatchLine::AddEofNl => {},
            PatchLine::DeleteEofNl | PatchLine::ContextEofNl => {
                let n = file.hunks.len();
                if n > 0 {
                    let mut h = file.hunks.pop().unwrap();
                    h.old_ends_nl = false;
                    file.hunks.push(h);
                    proof {
                        assert(hunks_view(file.hunks@) =~= before.hunks.update(
                            before.hunks.len() - 1,
                            DiffHunkView { old_ends_nl: false, ..before.hunks.last() },
                        ));
                    }
                }
            },
            PatchLine::Body { origin, content, old_lineno, new_lineno } => {
                let n = file.hunks.len();
                if n > 0 {
                    let text = strip_newline(content.as_slice());
                    let mut h = file.hunks.pop().unwrap();
                    let ghost hv = h@;
                    h.lines.push(
                        DiffLine {
                            origin: *origin,
                            content: text,
                            old_lineno: *old_lineno,
                            new_lineno: *new_lineno,
                        },
                    );
                    proof {
                        assert(lines_view(h.lines@) =~= hv.lines.push(h.lines@.last()@));
                    }
                    file.hunks.push(h);
                    match origin {
                        DiffOrigin::Addition => {
                            file.insertions = file.insertions + 1;
                        },
                        DiffOrigin::Deletion => {
                            file.deletions = file.deletions + 1;
                        },
                        DiffOrigin::Context => {},
                    }
                    proof {
                        assert(hunks_view(file.hunks@) =~= before.hunks.update(
                            before.hunks.len() - 1,
                            hunks_view(file.hunks@).last(),
                        ));
                    }
                }
            },
        }
        i = i + 1;
        assert(file@ == spec_extract(path@, lines@.take(i as int)));
    }
    assert(lines@.take(i as int) =~= lines@);
    file
}

} // verus!
