//! Per-project file lists and the ignore decisions the walk and the
//! incremental index filter share: the `graft` cache prune, the hidden
//! path rule, and the precedence of the ignore sources.

use crate::model::path::{
    ancestor_chain, ancestors_up_to, parent_of, path_parent, spec_strip_prefix, strings_of, strip_prefix, views,
};
use crate::text::{chars_lt, lemma_lex_total, lemma_lex_trans, lex_lt};
use vstd::prelude::*;

verus! {

broadcast use vstd::string::group_string_axioms;

/// Whether `l` is sorted ascending (each string no greater than the next,
/// in code-point order).
pub open spec fn sorted_strings(l: Seq<Seq<char>>) -> bool {
    forall|i: int, j: int| 0 <= i < j < l.len() ==> !lex_lt(#[trigger] l[j], #[trigger] l[i])
}

/// The string views of a list of strings.
pub open spec fn string_views(v: Seq<String>) -> Seq<Seq<char>> {
    v.map_values(|s: String| s@)
}

/// A project's file list: project-relative paths, sorted.
pub struct FileList {
    pub files: Vec<String>,
}

proof fn lemma_insert_multiset(s: Seq<Seq<char>>, p: int, x: Seq<char>)
    requires
        0 <= p <= s.len(),
    ensures
        s.insert(p, x).to_multiset() == s.to_multiset().insert(x),
{
    broadcast use vstd::seq_lib::group_to_multiset_ensures;

    let u = s.insert(p, x);
    s.insert_ensures(p, x);
    assert(u.remove(p) =~= s);
    assert(u[p] == x);
    assert(u.contains(x));
    assert(u.to_multiset().count(x) > 0);
    assert(u.to_multiset() =~= s.to_multiset().insert(x));
}

impl FileList {
    /// The file list of the walked relative `paths`, sorted ascending.
    pub fn from_paths(paths: Vec<String>) -> (l: Self)
        ensures
            sorted_strings(string_views(l.files@)),
            string_views(l.files@).to_multiset() == string_views(paths@).to_multiset(),
    {
        let mut out: Vec<String> = Vec::new();
        let mut i: usize = 0;
        proof {
            broadcast use vstd::seq_lib::group_to_multiset_ensures;

            assert(string_views(paths@).take(0) =~= string_views(out@));
        }
        while i < paths.len()
            invariant
                i <= paths@.len(),
                sorted_strings(string_views(out@)),
                string_views(out@).to_multiset() == string_views(paths@).take(i as int).to_multiset(),
            decreases paths@.len() - i,
        {
            let x = paths[i].clone();
            let xc = crate::text::chars_of(x.as_str());
            let mut p: usize = out.len();
            while p > 0 && chars_lt(
                xc.as_slice(),
                crate::text::chars_of(out[p - 1].as_str()).as_slice(),
            )
                invariant
                    p <= out@.len(),
                    xc@ == x@,
                    sorted_strings(string_views(out@)),
                    forall|j: int| p <= j < out@.len() ==> lex_lt(x@, #[trigger] out@[j]@),
                decreases p,
            {
                p = p - 1;
            }
            let ghost before = string_views(out@);
            proof {
                assert forall|j: int| 0 <= j < p implies !lex_lt(x@, #[trigger] before[j]) by {
                    if p > 0 {
                        lemma_lex_total(x@, before[p - 1]);
                        if j < p - 1 {
                            if lex_lt(x@, before[j]) {
                                assert(!lex_lt(before[p - 1], before[j]));
                                lemma_lex_total(before[j], before[p - 1]);
                                if lex_lt(before[j], before[p - 1]) {
                                    lemma_lex_trans(x@, before[j], before[p - 1]);
                                }
                            }
                        }
                    }
                }
                lemma_insert_multiset(before, p as int, x@);
            }
            out.insert(p, x);
            proof {
                let u = string_views(out@);
                before.insert_ensures(p as int, x@);
                assert(u =~= before.insert(p as int, x@));
                assert forall|a: int, b: int| 0 <= a < b < u.len() implies !lex_lt(
                    #[trigger] u[b],
                    #[trigger] u[a],
                ) by {
                    if b < p {
                        assert(u[a] == before[a] && u[b] == before[b]);
                    } else if b == p {
                        assert(u[a] == before[a]);
                        lemma_lex_total(x@, before[a]);
                    } else if a == p {
                        assert(u[b] == before[b - 1]);
                        lemma_lex_total(x@, before[b - 1]);
                    } else if a < p {
                        assert(u[a] == before[a] && u[b] == before[b - 1]);
                    } else {
                        assert(u[a] == before[a - 1] && u[b] == before[b - 1]);
                    }
                }
                assert(string_views(paths@).take(i + 1) =~= string_views(paths@).take(
                    i as int,
                ).push(x@));
                broadcast use vstd::seq_lib::group_to_multiset_ensures;

            }
            i = i + 1;
        }
        assert(string_views(paths@).take(paths@.len() as int) =~= string_views(paths@));
        FileList { files: out }
    }

    /// The number of files.
    pub fn len(&self) -> (n: usize)
        ensures
            n == self.files@.len(),
    {
        self.files.len()
    }
}

/// Whether `path` lies in a `graft` directory under `root`: some
/// directory component of its root-relative path (the last component
/// counts only for a directory) is `graft`. Paths outside `root` never
/// are.
pub open spec fn spec_under_graft(root: Seq<char>, path: Seq<char>, is_dir: bool) -> bool {
    match spec_strip_prefix(path, root) {
        None => false,
        Some(rel) => any_graft(dir_components(rel, is_dir)),
    }
}

/// The directory components of a relative path: all of them for a
/// directory, all but the last for a file.
pub open spec fn dir_components(rel: Seq<Seq<char>>, is_dir: bool) -> Seq<Seq<char>> {
    if is_dir || rel.len() == 0 {
        rel
    } else {
        rel.drop_last()
    }
}

/// Whether some component of `cs` is `graft`.
pub open spec fn any_graft(cs: Seq<Seq<char>>) -> bool
    decreases cs.len(),
{
    cs.len() > 0 && (is_graft(cs[0]) || any_graft(cs.drop_first()))
}

/// Whether a component is `graft`.
pub open spec fn is_graft(c: Seq<char>) -> bool {
    c == seq!['g', 'r', 'a', 'f', 't']
}

/// Whether two char slices hold the same chars.
fn same_chars(a: &[char], b: &[char]) -> (r: bool)
    ensures
        r == (a@ == b@),
{
    if a.len() != b.len() {
        return false;
    }
    let mut i: usize = 0;
    while i < a.len()
        invariant
            a@.len() == b@.len(),
            i <= a@.len(),
            forall|j: int| 0 <= j < i ==> a@[j] == b@[j],
        decreases a@.len() - i,
    {
        if a[i] != b[i] {
            return false;
        }
        i = i + 1;
    }
    assert(a@ =~= b@);
    true
}

/// True when any directory component of `path`'s `root`-relative path is
/// `graft` (the agent-cache directory itself or anything under it); a
/// file merely named `graft` does not count, nor does a path outside
/// `root`.
pub fn under_graft(root: &str, path: &str, is_dir: bool) -> (b: bool)
    ensures
        b == spec_under_graft(root@, path@, is_dir),
{
    let rel = match strip_prefix(path, root) {
        None => {
            return false;
        },
        Some(r) => r,
    };
    let ghost rv = views(rel@);
    let n = if is_dir || rel.len() == 0 {
        rel.len()
    } else {
        rel.len() - 1
    };
    let ghost dirs = dir_components(rv, is_dir);
    let graft = vec!['g', 'r', 'a', 'f', 't'];
    assert(graft@ =~= seq!['g', 'r', 'a', 'f', 't']);
    let mut i: usize = 0;
    assert(dirs.skip(0) =~= dirs);
    while i < n
        invariant
            i <= n,
            n == dirs.len(),
            rv == views(rel@),
            spec_strip_prefix(path@, root@) == Some(rv),
            dirs == dir_components(rv, is_dir),
            dirs.len() <= rv.len(),
            forall|j: int| 0 <= j < dirs.len() ==> dirs[j] == rv[j],
            graft@ == seq!['g', 'r', 'a', 'f', 't'],
            any_graft(dirs) == any_graft(dirs.skip(i as int)),
        decreases n - i,
    {
        if same_chars(rel[i].as_slice(), graft.as_slice()) {
            assert(is_graft(dirs.skip(i as int)[0]));
            return true;
        }
        assert(dirs.skip(i as int).drop_first() =~= dirs.skip(i + 1));
        i = i + 1;
    }
    false
}

/// A matcher's answer for a path.
#[derive(Clone, Copy, Debug, PartialEq, Eq, Structural)]
pub enum MatchKind {
    /// No pattern matched.
    NoMatch,
    /// An ignore pattern matched.
    Ignore,
    /// A negated (`!`) pattern matched.
    Whitelist,
}

/// The decision of a repo-level source asked about a path and then each
/// of its parents in turn: the first answer that matched (`Some(true)` =
/// ignore, `Some(false)` = keep), `None` when none did.
pub open spec fn spec_rel_decision(matches: Seq<MatchKind>) -> Option<bool>
    decreases matches.len(),
{
    if matches.len() == 0 {
        None
    } else if matches[0] != MatchKind::NoMatch {
        Some(matches[0] == MatchKind::Ignore)
    } else {
        spec_rel_decision(matches.drop_first())
    }
}

/// The first decisive answer among a path's and then its parents'
/// matcher answers.
pub fn rel_decision(matches: &[MatchKind]) -> (r: Option<bool>)
    ensures
        r == spec_rel_decision(matches@),
{
    let mut i: usize = 0;
    assert(matches@.skip(0) =~= matches@);
    while i < matches.len()
        invariant
            i <= matches@.len(),
            spec_rel_decision(matches@) == spec_rel_decision(matches@.skip(i as int)),
        decreases matches@.len() - i,
    {
        assert(matches@.skip(i as int).drop_first() =~= matches@.skip(i + 1));
        if matches[i] != MatchKind::NoMatch {
            return Some(matches[i] == MatchKind::Ignore);
        }
        i = i + 1;
    }
    None
}

/// Whether a root-relative component is a hidden entry (a normal
/// component starting with `.`).
pub open spec fn hidden_component(c: Seq<char>) -> bool {
    c.len() > 0 && c[0] == '.' && c != seq!['.'] && c != seq!['.', '.']
}

/// The verdict that needs no ignore file: outside `root` or `root` itself
/// is never ignored (`Some(false)`), a hidden component anywhere in the
/// root-relative path always is (`Some(true)`); otherwise `None`.
pub open spec fn spec_precheck(root: Seq<char>, path: Seq<char>) -> Option<bool> {
    match spec_strip_prefix(path, root) {
        None => Some(false),
        Some(rel) => if rel.len() == 0 {
            Some(false)
        } else if exists|i: int| 0 <= i < rel.len() && hidden_component(rel[i]) {
            Some(true)
        } else {
            None
        },
    }
}

/// The part of the ignore decision that needs no ignore file.
pub fn ignore_precheck(root: &str, path: &str) -> (r: Option<bool>)
    ensures
        r == spec_precheck(root@, path@),
{
    let rel = match strip_prefix(path, root) {
        None => {
            return Some(false);
        },
        Some(r) => r,
    };
    if rel.len() == 0 {
        return Some(false);
    }
    let ghost rv = views(rel@);
    let mut i: usize = 0;
    while i < rel.len()
        invariant
            i <= rel@.len(),
            rv == views(rel@),
            spec_strip_prefix(path@, root@) == Some(rv),
            rv.len() > 0,
            forall|j: int| 0 <= j < i ==> !hidden_component(rv[j]),
        decreases rel@.len() - i,
    {
        let c = &rel[i];
        let hidden = c.len() > 0 && c[0] == '.' && !(c.len() == 1) && !(c.len() == 2 && c[1]
            == '.');
        proof {
            let cv = rv[i as int];
            assert(cv == c@);
            if cv.len() == 1 && cv[0] == '.' {
                assert(cv =~= seq!['.']);
            }
            if cv.len() == 2 && cv[0] == '.' && cv[1] == '.' {
                assert(cv =~= seq!['.', '.']);
            }
            assert(hidden == hidden_component(cv));
        }
        if hidden {
            assert(exists|j: int| 0 <= j < rv.len() && hidden_component(rv[j]));
            return Some(true);
        }
        i = i + 1;
    }
    None
}

/// The directories whose ignore files speak for `path` under `root`:
/// `path` itself for a directory, else its parent, then each parent in
/// turn up to `root`; none for a path outside `root`.
pub fn ignore_file_dirs(root: &str, path: &str, is_dir: bool) -> (r: Vec<String>)
    ensures
        match spec_strip_prefix(path@, root@) {
            None => r@.len() == 0,
            Some(_) => match (if is_dir {
                Some(path@)
            } else {
                path_parent(path@)
            }) {
                None => r@.len() == 0,
                Some(d) => ancestor_chain(d, Some(root@), strings_of(r@)),
            },
        },
{
    if strip_prefix(path, root).is_none() {
        return Vec::new();
    }
    let start = if is_dir {
        Some(path.to_owned())
    } else {
        parent_of(path)
    };
    match start {
        Some(d) => ancestors_up_to(d.as_str(), Some(root)),
        None => Vec::new(),
    }
}

/// Whether some answer of `ms` is `k`.
pub open spec fn any_is(ms: Seq<MatchKind>, k: MatchKind) -> bool {
    exists|i: int| 0 <= i < ms.len() && ms[i] == k
}

/// The ignore decision from the ignore-file chain and the repo-level
/// sources. `dot_ignore` and `git_ignore` hold, per ancestor directory,
/// the `.ignore` and `.gitignore` answers; `repo` is `None` outside a git
/// repo, else the decisions of `.git/info/exclude` and of the global
/// excludes. A `.ignore` match (either way) outranks the `.gitignore`
/// chain, an explicit chain match outranks the repo sources, and
/// `.git/info/exclude` outranks the global excludes.
pub open spec fn spec_chain_verdict(
    dot_ignore: Seq<MatchKind>,
    git_ignore: Seq<MatchKind>,
    repo: Option<(Option<bool>, Option<bool>)>,
) -> bool {
    if any_is(dot_ignore, MatchKind::Ignore) {
        true
    } else if any_is(dot_ignore, MatchKind::Whitelist) {
        false
    } else if any_is(git_ignore, MatchKind::Ignore) {
        true
    } else if any_is(git_ignore, MatchKind::Whitelist) {
        false
    } else {
        match repo {
            None => false,
            Some((exclude, global)) => match exclude {
                Some(b) => b,
                None => global == Some(true),
            },
        }
    }
}

fn has_kind(ms: &[MatchKind], k: MatchKind) -> (b: bool)
    ensures
        b == any_is(ms@, k),
{
    let mut i: usize = 0;
    while i < ms.len()
        invariant
            i <= ms@.len(),
            forall|j: int| 0 <= j < i ==> ms@[j] != k,
        decreases ms@.len() - i,
    {
        if ms[i] == k {
            return true;
        }
        i = i + 1;
    }
    false
}

/// The ignore decision from the ignore-file chain and the repo-level
/// sources (see [`spec_chain_verdict`]).
pub fn chain_verdict(
    dot_ignore: &[MatchKind],
    git_ignore: &[MatchKind],
    repo: Option<(Option<bool>, Option<bool>)>,
) -> (b: bool)
    ensures
        b == spec_chain_verdict(dot_ignore@, git_ignore@, repo),
{
    if has_kind(dot_ignore, MatchKind::Ignore) {
        return true;
    }
    if has_kind(dot_ignore, MatchKind::Whitelist) {
        return false;
    }
    if has_kind(git_ignore, MatchKind::Ignore) {
        return true;
    }
    if has_kind(git_ignore, MatchKind::Whitelist) {
        return false;
    }
    match repo {
        None => false,
        Some((exclude, global)) => match exclude {
            Some(b) => b,
            None => match global {
                Some(g) => g,
                None => false,
            },
        },
    }
}

/// Whether `path` (under `root`) is excluded from the walk for ignore
/// reasons, given the chain and repo answers for it.
pub fn is_gitignored(
    root: &str,
    path: &str,
    dot_ignore: &[MatchKind],
    git_ignore: &[MatchKind],
    repo: Option<(Option<bool>, Option<bool>)>,
) -> (b: bool)
    ensures
        b == match spec_precheck(root@, path@) {
            Some(v) => v,
            None => spec_chain_verdict(dot_ignore@, git_ignore@, repo),
        },
{
    match ignore_precheck(root, path) {
        Some(v) => v,
        None => chain_verdict(dot_ignore, git_ignore, repo),
    }
}

} // verus!
