//! Plain status data + classification of a status entry's change flags.

use vstd::prelude::*;

verus! {

/// Which side of a change a file/hunk section lives on. This drives the
/// dwim staging keys: `s` acts on the unstaged/untracked side, `u` on the
/// staged side.
#[derive(Clone, Copy, Debug, PartialEq, Eq, Structural)]
pub enum Side {
    /// The change is in the index, not yet in HEAD.
    Staged,
    /// The change is in the workdir, not yet in the index.
    Unstaged,
    /// A new, never-tracked file.
    Untracked,
}

/// The kind of change on one side of a file.
#[derive(Clone, Copy, Debug, Default, PartialEq, Eq, Structural)]
pub enum StatusKind {
    /// No change on this side.
    #[default]
    Unchanged,
    Added,
    Modified,
    Deleted,
    Renamed,
    Typechange,
}

/// The single-letter indicator of a status kind.
pub open spec fn kind_letter(k: StatusKind) -> char {
    match k {
        StatusKind::Unchanged => ' ',
        StatusKind::Added => 'A',
        StatusKind::Modified => 'M',
        StatusKind::Deleted => 'D',
        StatusKind::Renamed => 'R',
        StatusKind::Typechange => 'T',
    }
}

impl StatusKind {
    /// The single-letter status indicator shown in a file heading.
    pub fn letter(self) -> (c: char)
        ensures
            c == kind_letter(self),
    {
        match self {
            StatusKind::Unchanged => ' ',
            StatusKind::Added => 'A',
            StatusKind::Modified => 'M',
            StatusKind::Deleted => 'D',
            StatusKind::Renamed => 'R',
            StatusKind::Typechange => 'T',
        }
    }
}

/// A changed file, with its staged and unstaged classification. `path` is
/// the index/workdir path (the new side for a rename); `orig` is the
/// pre-rename path when the file was renamed.
#[derive(Clone, Debug, PartialEq, Eq)]
pub struct FileStatus {
    pub path: String,
    pub orig: Option<String>,
    pub staged: StatusKind,
    pub unstaged: StatusKind,
    pub untracked: bool,
}

impl FileStatus {
    /// Whether the file has a change in the index.
    pub fn is_staged(&self) -> (b: bool)
        ensures
            b == (self.staged != StatusKind::Unchanged),
    {
        self.staged != StatusKind::Unchanged
    }

    /// Whether the file has a change in the workdir.
    pub fn is_unstaged(&self) -> (b: bool)
        ensures
            b == (self.unstaged != StatusKind::Unchanged),
    {
        self.unstaged != StatusKind::Unchanged
    }
}

/// The current branch (or a detached/unborn state).
#[derive(Clone, Debug, PartialEq, Eq)]
pub struct BranchInfo {
    pub name: String,
    pub detached: bool,
    pub unborn: bool,
}

/// An aggregate snapshot of `git status` for the magit status buffer.
#[derive(Clone, Debug, Default, PartialEq, Eq)]
pub struct RepoStatus {
    /// The current branch, if the repository has one (or a detached/unborn
    /// marker).
    pub branch: Option<BranchInfo>,
    /// Files with any change, sorted by path.
    pub files: Vec<FileStatus>,
}

/// How many of `files` satisfy `p`.
pub open spec fn count_where(files: Seq<FileStatus>, p: spec_fn(FileStatus) -> bool) -> nat
    decreases files.len(),
{
    if files.len() == 0 {
        0
    } else {
        count_where(files.drop_last(), p) + if p(files.last()) { 1nat } else { 0nat }
    }
}

/// The file has a staged change.
pub open spec fn staged_pred() -> spec_fn(FileStatus) -> bool {
    |f: FileStatus| f.staged != StatusKind::Unchanged
}

/// The file has an unstaged change.
pub open spec fn unstaged_pred() -> spec_fn(FileStatus) -> bool {
    |f: FileStatus| f.unstaged != StatusKind::Unchanged
}

/// The file is untracked.
pub open spec fn untracked_pred() -> spec_fn(FileStatus) -> bool {
    |f: FileStatus| f.untracked
}

/// A count of files never exceeds the number of files.
pub proof fn lemma_count_bound(files: Seq<FileStatus>, p: spec_fn(FileStatus) -> bool)
    ensures
        count_where(files, p) <= files.len(),
    decreases files.len(),
{
    if files.len() > 0 {
        lemma_count_bound(files.drop_last(), p);
    }
}

fn count_files(files: &Vec<FileStatus>, which: u8) -> (n: usize)
    requires
        which < 3,
    ensures
        n == count_where(
            files@,
            if which == 0 {
                staged_pred()
            } else if which == 1 {
                unstaged_pred()
            } else {
                untracked_pred()
            },
        ),
{
    let ghost p = if which == 0 {
        staged_pred()
    } else if which == 1 {
        unstaged_pred()
    } else {
        untracked_pred()
    };
    let mut n: usize = 0;
    let mut i: usize = 0;
    while i < files.len()
        invariant
            i <= files@.len(),
            n == count_where(files@.take(i as int), p),
            p == (if which == 0 {
                staged_pred()
            } else if which == 1 {
                unstaged_pred()
            } else {
                untracked_pred()
            }),
        decreases files@.len() - i,
    {
        proof {
            assert(files@.take(i + 1).drop_last() =~= files@.take(i as int));
            lemma_count_bound(files@.take(i as int), p);
        }
        let f = &files[i];
        let hit = if which == 0 {
            f.is_staged()
        } else if which == 1 {
            f.is_unstaged()
        } else {
            f.untracked
        };
        if hit {
            n = n + 1;
        }
        i = i + 1;
    }
    assert(files@.take(i as int) =~= files@);
    n
}

impl RepoStatus {
    /// The number of files with a staged change.
    pub fn staged_count(&self) -> (n: usize)
        ensures
            n == count_where(self.files@, staged_pred()),
    {
        count_files(&self.files, 0)
    }

    /// The number of files with an unstaged change.
    pub fn unstaged_count(&self) -> (n: usize)
        ensures
            n == count_where(self.files@, unstaged_pred()),
    {
        count_files(&self.files, 1)
    }

    /// The number of untracked files.
    pub fn untracked_count(&self) -> (n: usize)
        ensures
            n == count_where(self.files@, untracked_pred()),
    {
        count_files(&self.files, 2)
    }
}

/// The change flags of one status entry, one boolean per libgit2 status
/// bit that the classification reads.
#[derive(Clone, Copy, Debug, Default, PartialEq, Eq)]
pub struct StatusFlags {
    pub index_new: bool,
    pub index_modified: bool,
    pub index_deleted: bool,
    pub index_renamed: bool,
    pub index_typechange: bool,
    pub wt_new: bool,
    pub wt_modified: bool,
    pub wt_deleted: bool,
    pub wt_renamed: bool,
    pub wt_typechange: bool,
}

/// The staged-side kind of an entry: the first matching flag in the order
/// renamed, added, deleted, modified, typechange.
pub open spec fn spec_staged_kind(f: StatusFlags) -> StatusKind {
    if f.index_renamed {
        StatusKind::Renamed
    } else if f.index_new {
        StatusKind::Added
    } else if f.index_deleted {
        StatusKind::Deleted
    } else if f.index_modified {
        StatusKind::Modified
    } else if f.index_typechange {
        StatusKind::Typechange
    } else {
        StatusKind::Unchanged
    }
}

/// The unstaged-side kind of an entry: the first matching flag in the
/// order renamed, deleted, modified, typechange.
pub open spec fn spec_unstaged_kind(f: StatusFlags) -> StatusKind {
    if f.wt_renamed {
        StatusKind::Renamed
    } else if f.wt_deleted {
        StatusKind::Deleted
    } else if f.wt_modified {
        StatusKind::Modified
    } else if f.wt_typechange {
        StatusKind::Typechange
    } else {
        StatusKind::Unchanged
    }
}

/// Classify one status entry: `(staged, unstaged, untracked)`. An entry is
/// untracked when it is new in the workdir and has no index-side change.
pub fn classify(f: StatusFlags) -> (r: (StatusKind, StatusKind, bool))
    ensures
        r.0 == spec_staged_kind(f),
        r.1 == spec_unstaged_kind(f),
        r.2 == (f.wt_new && spec_staged_kind(f) == StatusKind::Unchanged),
{
    let staged = if f.index_renamed {
        StatusKind::Renamed
    } else if f.index_new {
        StatusKind::Added
    } else if f.index_deleted {
        StatusKind::Deleted
    } else if f.index_modified {
        StatusKind::Modified
    } else if f.index_typechange {
        StatusKind::Typechange
    } else {
        StatusKind::Unchanged
    };
    let unstaged = if f.wt_renamed {
        StatusKind::Renamed
    } else if f.wt_deleted {
        StatusKind::Deleted
    } else if f.wt_modified {
        StatusKind::Modified
    } else if f.wt_typechange {
        StatusKind::Typechange
    } else {
        StatusKind::Unchanged
    };
    let untracked = f.wt_new && staged == StatusKind::Unchanged;
    (staged, unstaged, untracked)
}

/// What each staged and unstaged kind means in terms of git's flags: a
/// rename outranks every other change, a staged addition is a file new to
/// the index, a deletion outranks an edit, and an edit (`Modified`) is
/// reported exactly when the content changed and the file was neither
/// renamed, added nor deleted; no flag means no change. An untracked entry
/// is a workdir-new file with no index-side flag at all.
pub proof fn lemma_classify_meaning(f: StatusFlags)
    ensures
        (spec_staged_kind(f) == StatusKind::Renamed) == f.index_renamed,
        (spec_staged_kind(f) == StatusKind::Added) == (f.index_new && !f.index_renamed),
        (spec_staged_kind(f) == StatusKind::Deleted) == (f.index_deleted && !f.index_new && !f.index_renamed),
        (spec_staged_kind(f) == StatusKind::Modified) == (f.index_modified && !f.index_deleted && !f.index_new
            && !f.index_renamed),
        (spec_staged_kind(f) == StatusKind::Typechange) == (f.index_typechange && !f.index_modified
            && !f.index_deleted && !f.index_new && !f.index_renamed),
        (spec_staged_kind(f) == StatusKind::Unchanged) == !(f.index_new || f.index_modified || f.index_deleted
            || f.index_renamed || f.index_typechange),
        (spec_unstaged_kind(f) == StatusKind::Renamed) == f.wt_renamed,
        (spec_unstaged_kind(f) == StatusKind::Deleted) == (f.wt_deleted && !f.wt_renamed),
        (spec_unstaged_kind(f) == StatusKind::Modified) == (f.wt_modified && !f.wt_deleted && !f.wt_renamed),
        (spec_unstaged_kind(f) == StatusKind::Typechange) == (f.wt_typechange && !f.wt_modified && !f.wt_deleted
            && !f.wt_renamed),
        (spec_unstaged_kind(f) == StatusKind::Unchanged) == !(f.wt_modified || f.wt_deleted || f.wt_renamed
            || f.wt_typechange),
        spec_unstaged_kind(f) != StatusKind::Added,
        (f.wt_new && spec_staged_kind(f) == StatusKind::Unchanged) == (f.wt_new && !(f.index_new
            || f.index_modified || f.index_deleted || f.index_renamed || f.index_typechange)),
{
}

/// The canonical (new) path for a rename delta, plus the pre-rename (old)
/// path. `fallback` is the entry path when the new path is unavailable.
pub fn rename_paths(new: Option<String>, old: Option<String>, fallback: String) -> (r: (
    String,
    Option<String>,
))
    ensures
        r.0 == (match new {
            Some(n) => n,
            None => fallback,
        }),
        r.1 == old,
{
    let path = match new {
        Some(n) => n,
        None => fallback,
    };
    (path, old)
}

/// Whether `files` are sorted by path (code-point order).
pub open spec fn sorted_by_path(files: Seq<FileStatus>) -> bool {
    forall|i: int, j: int|
        0 <= i < j < files.len() ==> !crate::text::lex_lt(#[trigger] files[j].path@, #[trigger] files[i].path@)
}

proof fn lemma_insert_multiset(s: Seq<FileStatus>, p: int, x: FileStatus)
    requires
        0 <= p <= s.len(),
    ensures
        s.insert(p, x).to_multiset() == s.to_multiset().insert(x),
{
    broadcast use vstd::seq_lib::group_to_multiset_ensures;

    let u = s.insert(p, x);
    s.insert_ensures(p, x);
    assert(u.remove(p) =~= s);
    assert(u[p] == x);
    assert(u.contains(x));
    assert(u.to_multiset() =~= s.to_multiset().insert(x));
}

/// The files of `s` whose path is `q`, in order.
pub open spec fn with_path(s: Seq<FileStatus>, q: Seq<char>) -> Seq<FileStatus> {
    s.filter(path_is(q))
}

/// Whether a file's path is `q`.
pub open spec fn path_is(q: Seq<char>) -> spec_fn(FileStatus) -> bool {
    |f: FileStatus| f.path@ == q
}

proof fn lemma_with_path_single(x: FileStatus, q: Seq<char>)
    ensures
        with_path(seq![x], q) == (if x.path@ == q {
            seq![x]
        } else {
            Seq::<FileStatus>::empty()
        }),
{
    lemma_with_path_push(Seq::<FileStatus>::empty(), x, q);
    assert(Seq::<FileStatus>::empty().push(x) =~= seq![x]);
    assert(with_path(Seq::<FileStatus>::empty(), q) =~= Seq::<FileStatus>::empty()) by {
        reveal(Seq::filter);
    }
}

proof fn lemma_with_path_push(s: Seq<FileStatus>, x: FileStatus, q: Seq<char>)
    ensures
        with_path(s.push(x), q) == (if x.path@ == q {
            with_path(s, q).push(x)
        } else {
            with_path(s, q)
        }),
{
    reveal(Seq::filter);
    assert(s.push(x).drop_last() =~= s);
}

proof fn lemma_with_path_insert(before: Seq<FileStatus>, p: int, x: FileStatus, q: Seq<char>)
    requires
        0 <= p <= before.len(),
        forall|j: int| p <= j < before.len() ==> crate::text::lex_lt(x.path@, #[trigger] before[j].path@),
    ensures
        with_path(before.insert(p, x), q) == (if x.path@ == q {
            with_path(before, q).push(x)
        } else {
            with_path(before, q)
        }),
{
    let pred = path_is(q);
    let a = before.take(p);
    let b = before.skip(p);
    assert(before =~= a + b);
    assert(before.insert(p, x) =~= a + seq![x] + b);
    Seq::filter_distributes_over_add(a, b, pred);
    Seq::filter_distributes_over_add(a + seq![x], b, pred);
    Seq::filter_distributes_over_add(a, seq![x], pred);
    lemma_with_path_single(x, q);
    if x.path@ == q {
        assert forall|j: int| 0 <= j < b.len() implies !pred(#[trigger] b[j]) by {
            assert(b[j] == before[p + j]);
            crate::text::lemma_lex_total(x.path@, x.path@);
        }
        b.lemma_all_neg_filter_empty(pred);
        assert(b.filter(pred) =~= Seq::<FileStatus>::empty());
        assert(with_path(before.insert(p, x), q) =~= with_path(before, q).push(x));
    } else {
        assert(with_path(before.insert(p, x), q) =~= with_path(before, q));
    }
}

/// `files` sorted by path; files with equal paths keep their order.
pub fn sort_by_path(files: Vec<FileStatus>) -> (r: Vec<FileStatus>)
    ensures
        sorted_by_path(r@),
        r@.to_multiset() == files@.to_multiset(),
        forall|q: Seq<char>| #[trigger] with_path(r@, q) == with_path(files@, q),
{
    let mut out: Vec<FileStatus> = Vec::new();
    let mut rest = files;
    let ghost orig = rest@;
    let mut taken: usize = 0;
    let total = rest.len();
    proof {
        broadcast use vstd::seq_lib::group_to_multiset_ensures;

        assert(orig.take(0) =~= out@);
    }
    while rest.len() > 0
        invariant
            total == orig.len(),
            taken + rest@.len() == orig.len(),
            rest@ == orig.skip(taken as int),
            sorted_by_path(out@),
            out@.to_multiset() == orig.take(taken as int).to_multiset(),
            forall|q: Seq<char>| #[trigger] with_path(out@, q) == with_path(orig.take(taken as int), q),
        decreases rest@.len(),
    {
        let x = rest.remove(0);
        proof {
            assert(x == orig[taken as int]);
            assert(rest@ =~= orig.skip(taken + 1));
        }
        let xc = crate::text::chars_of(x.path.as_str());
        let mut p: usize = out.len();
        while p > 0 && crate::text::chars_lt(
            xc.as_slice(),
            crate::text::chars_of(out[p - 1].path.as_str()).as_slice(),
        )
            invariant
                p <= out@.len(),
                xc@ == x.path@,
                sorted_by_path(out@),
                forall|j: int| p <= j < out@.len() ==> crate::text::lex_lt(x.path@, #[trigger] out@[j].path@),
            decreases p,
        {
            p = p - 1;
        }
        let ghost before = out@;
        proof {
            assert forall|j: int| 0 <= j < p implies !crate::text::lex_lt(
                x.path@,
                #[trigger] before[j].path@,
            ) by {
                if p > 0 {
                    crate::text::lemma_lex_total(x.path@, before[p - 1].path@);
                    if j < p - 1 && crate::text::lex_lt(x.path@, before[j].path@) {
                        assert(!crate::text::lex_lt(before[p - 1].path@, before[j].path@));
                        crate::text::lemma_lex_total(before[j].path@, before[p - 1].path@);
                        if crate::text::lex_lt(before[j].path@, before[p - 1].path@) {
                            crate::text::lemma_lex_trans(x.path@, before[j].path@, before[p - 1].path@);
                        }
                    }
                }
            }
            lemma_insert_multiset(before, p as int, x);
        }
        out.insert(p, x);
        proof {
            let u = out@;
            before.insert_ensures(p as int, x);
            assert forall|a: int, b: int| 0 <= a < b < u.len() implies !crate::text::lex_lt(
                #[trigger] u[b].path@,
                #[trigger] u[a].path@,
            ) by {
                if b < p {
                    assert(u[a] == before[a] && u[b] == before[b]);
                } else if b == p {
                    assert(u[a] == before[a]);
                    crate::text::lemma_lex_total(x.path@, before[a].path@);
                } else if a == p {
                    assert(u[b] == before[b - 1]);
                    crate::text::lemma_lex_total(x.path@, before[b - 1].path@);
                } else if a < p {
                    assert(u[a] == before[a] && u[b] == before[b - 1]);
                } else {
                    assert(u[a] == before[a - 1] && u[b] == before[b - 1]);
                }
            }
            assert(orig.take(taken + 1) =~= orig.take(taken as int).push(x));
            assert forall|q: Seq<char>| #[trigger] with_path(u, q) == with_path(orig.take(taken + 1), q) by {
                lemma_with_path_insert(before, p as int, x, q);
                lemma_with_path_push(orig.take(taken as int), x, q);
            }
            broadcast use vstd::seq_lib::group_to_multiset_ensures;

        }
        taken = taken + 1;
    }
    assert(orig.take(orig.len() as int) =~= orig);
    out
}

/// What one status entry of the repository reports, as plain values: its
/// change flags, its path, and the new and old paths of its head-to-index
/// and index-to-workdir deltas (`None` where a delta or its path is
/// absent).
#[derive(Clone, Debug, PartialEq, Eq)]
pub struct StatusEntry {
    pub flags: StatusFlags,
    pub path: String,
    pub staged_new: Option<String>,
    pub staged_old: Option<String>,
    pub unstaged_new: Option<String>,
    pub unstaged_old: Option<String>,
}

/// The file row of a status entry: its classification, and for a rename
/// the new path (the entry path when unknown) with the pre-rename path,
/// taken from the staged delta when the staged side is renamed, else from
/// the unstaged delta when that side is; otherwise the entry path and no
/// pre-rename path.
pub open spec fn spec_file_status(e: StatusEntry) -> FileStatus {
    let staged = spec_staged_kind(e.flags);
    let unstaged = spec_unstaged_kind(e.flags);
    let untracked = e.flags.wt_new && staged == StatusKind::Unchanged;
    if staged == StatusKind::Renamed {
        FileStatus {
            path: match e.staged_new {
                Some(n) => n,
                None => e.path,
            },
            orig: e.staged_old,
            staged,
            unstaged,
            untracked,
        }
    } else if unstaged == StatusKind::Renamed {
        FileStatus {
            path: match e.unstaged_new {
                Some(n) => n,
                None => e.path,
            },
            orig: e.unstaged_old,
            staged,
            unstaged,
            untracked,
        }
    } else {
        FileStatus { path: e.path, orig: None, staged, unstaged, untracked }
    }
}

/// A file row keeps a pre-rename path only for a renamed side, and an
/// untracked row has no staged change.
pub open spec fn row_consistent(f: FileStatus) -> bool {
    &&& f.orig is Some ==> (f.staged == StatusKind::Renamed || f.unstaged == StatusKind::Renamed)
    &&& f.untracked ==> f.staged == StatusKind::Unchanged
}

/// The file row of one status entry (see [`spec_file_status`]).
pub fn file_status(e: StatusEntry) -> (f: FileStatus)
    ensures
        f == spec_file_status(e),
        row_consistent(f),
{
    let (staged, unstaged, untracked) = classify(e.flags);
    let (path, orig) = if staged == StatusKind::Renamed {
        rename_paths(e.staged_new, e.staged_old, e.path)
    } else if unstaged == StatusKind::Renamed {
        rename_paths(e.unstaged_new, e.unstaged_old, e.path)
    } else {
        (e.path, None)
    };
    FileStatus { path, orig, staged, unstaged, untracked }
}

/// The file rows of all status entries, sorted by path (entries with
/// equal paths keep their order).
pub fn status_files(entries: Vec<StatusEntry>) -> (r: Vec<FileStatus>)
    ensures
        sorted_by_path(r@),
        r@.to_multiset() == entries@.map_values(|e: StatusEntry| spec_file_status(e)).to_multiset(),
        forall|q: Seq<char>|
            #[trigger] with_path(r@, q) == with_path(entries@.map_values(|e: StatusEntry| spec_file_status(e)), q),
        forall|i: int| 0 <= i < r@.len() ==> row_consistent(#[trigger] r@[i]),
{
    let ghost orig = entries@;
    let ghost mapped = orig.map_values(|e: StatusEntry| spec_file_status(e));
    let mut rest = entries;
    let mut out: Vec<FileStatus> = Vec::new();
    assert(orig.subrange(orig.len() as int, orig.len() as int).map_values(|e: StatusEntry| spec_file_status(e)) =~= out@);
    while rest.len() > 0
        invariant
            rest@.len() <= orig.len(),
            rest@ == orig.subrange(0, rest@.len() as int),
            out@ == orig.subrange(rest@.len() as int, orig.len() as int).map_values(
                |e: StatusEntry| spec_file_status(e),
            ),
        decreases rest@.len(),
    {
        let ghost k = rest@.len() as int;
        let e = rest.pop().unwrap();
        assert(e == orig[k - 1]);
        let f = file_status(e);
        out.insert(0, f);
        assert(rest@ =~= orig.subrange(0, k - 1));
        assert(out@ =~= orig.subrange(k - 1, orig.len() as int).map_values(|e: StatusEntry| spec_file_status(e)));
    }
    assert(out@ =~= mapped);
    let r = sort_by_path(out);
    proof {
        broadcast use vstd::seq_lib::group_to_multiset_ensures;

        assert forall|i: int| 0 <= i < r@.len() implies row_consistent(#[trigger] r@[i]) by {
            assert(r@.contains(r@[i]));
            assert(mapped.to_multiset().count(r@[i]) > 0);
            assert(mapped.contains(r@[i]));
            let j = choose|j: int| 0 <= j < mapped.len() && mapped[j] == r@[i];
            assert(mapped[j] == spec_file_status(orig[j]));
        }
    }
    r
}

/// What `HEAD` is: a branch (its short name, when it reads as text), a
/// detached commit (its id, when there is one), or unborn (no commits).
pub enum HeadState {
    Attached(Option<String>),
    Detached(Option<String>),
    Unborn,
}

/// The name shown for a detached `HEAD` at commit `id`: `(<short id>)`,
/// or `HEAD` without an id.
pub open spec fn detached_name(id: Seq<char>) -> Seq<char> {
    let short = crate::git::log::spec_short_id(id);
    if short.len() == 0 {
        "HEAD"@
    } else {
        seq!['('] + short + seq![')']
    }
}

/// The branch line for a `HEAD` state: the branch's name (`HEAD` when it
/// does not read as text), `(<short id>)` when detached, `(no commits)`
/// when unborn.
pub fn branch_info(head: HeadState) -> (b: BranchInfo)
    ensures
        match head {
            HeadState::Attached(n) => !b.detached && !b.unborn && b.name@ == (match n {
                Some(s) => s@,
                None => "HEAD"@,
            }),
            HeadState::Detached(id) => b.detached && !b.unborn && b.name@ == detached_name(match id {
                Some(s) => s@,
                None => Seq::empty(),
            }),
            HeadState::Unborn => !b.detached && b.unborn && b.name@ == "(no commits)"@,
        },
{
    match head {
        HeadState::Attached(n) => {
            let name = match n {
                Some(s) => s,
                None => String::from_str("HEAD"),
            };
            BranchInfo { name, detached: false, unborn: false }
        },
        HeadState::Detached(id) => {
            let oid = match id {
                Some(s) => s,
                None => String::new(),
            };
            let short = crate::git::log::short_id(oid.as_str());
            let name = if short.unicode_len() == 0 {
                String::from_str("HEAD")
            } else {
                let mut n = String::new();
                crate::text::push_char(&mut n, '(');
                let cs = crate::text::chars_of(short.as_str());
                let mut k: usize = 0;
                while k < cs.len()
                    invariant
                        k <= cs@.len(),
                        n@ == seq!['('] + cs@.take(k as int),
                    decreases cs@.len() - k,
                {
                    crate::text::push_char(&mut n, cs[k]);
                    k = k + 1;
                    assert(n@ =~= seq!['('] + cs@.take(k as int));
                }
                crate::text::push_char(&mut n, ')');
                assert(cs@.take(cs@.len() as int) =~= cs@);
                n
            };
            BranchInfo { name, detached: true, unborn: false }
        },
        HeadState::Unborn => BranchInfo { name: String::from_str("(no commits)"), detached: false, unborn: true },
    }
}

} // verus!
