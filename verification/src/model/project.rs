//! The project layer: project identity, root choice, the known-project
//! registry (most recent first, one entry per root) and the per-project
//! recent files (most recent first, deduplicated, capped).

use crate::model::path::{components, file_name, join, same_path, spec_file_name, spec_join};
use crate::text::{chars_lt, lemma_lex_total, lemma_lex_trans, lex_lt, string_of};
use vstd::prelude::*;

verus! {

broadcast use vstd::string::group_string_axioms;

/// One project: its root path and its display name.
#[derive(Clone, Debug, PartialEq, Eq)]
pub struct Project {
    pub root: String,
    pub name: String,
}

/// A project as plain values.
pub struct ProjectView {
    pub root: Seq<char>,
    pub name: Seq<char>,
}

impl View for Project {
    type V = ProjectView;

    open spec fn view(&self) -> ProjectView {
        ProjectView { root: self.root@, name: self.name@ }
    }
}

/// The display name of a project rooted at `root`: the root's file name,
/// or the root itself when it has none (a filesystem root).
pub open spec fn project_name(root: Seq<char>) -> Seq<char> {
    match spec_file_name(root) {
        Some(n) => n,
        None => root,
    }
}

impl Project {
    /// A project rooted at `root`, named by the root's file name (or the
    /// path itself when the root is a filesystem root).
    pub fn new(root: String) -> (p: Self)
        ensures
            p.root@ == root@,
            p.name@ == project_name(root@),
    {
        let name = match file_name(root.as_str()) {
            Some(n) => n,
            None => root.clone(),
        };
        Project { root, name }
    }

    /// A copy of the project.
    pub fn copy(&self) -> (p: Self)
        ensures
            p@ == self@,
    {
        Project { root: self.root.clone(), name: self.name.clone() }
    }
}

/// The files that mark a project root when no `.git` is found on the way
/// up.
pub fn markers() -> (m: Vec<&'static str>)
    ensures
        m@.map_values(|s: &'static str| s@) == seq![
            "Cargo.toml"@,
            "package.json"@,
            "pyproject.toml"@,
            "go.mod"@,
            ".projectile"@,
        ],
{
    let m = vec!["Cargo.toml", "package.json", "pyproject.toml", "go.mod", ".projectile"];
    assert(m@.map_values(|s: &'static str| s@) =~= seq![
        "Cargo.toml"@,
        "package.json"@,
        "pyproject.toml"@,
        "go.mod"@,
        ".projectile"@,
    ]);
    m
}

/// The first index in `[0, n)` whose flag is set.
pub open spec fn first_set(flags: Seq<bool>, i: int) -> Option<int>
    decreases flags.len() - i,
{
    if i < 0 || i >= flags.len() {
        None
    } else if flags[i] {
        Some(i)
    } else {
        first_set(flags, i + 1)
    }
}

/// The root among the ancestors of a start directory (innermost first),
/// given which hold a `.git` and which hold a marker file: the innermost
/// git root, else the nearest marker directory.
pub open spec fn spec_choose_root(has_git: Seq<bool>, has_marker: Seq<bool>) -> Option<int> {
    match first_set(has_git, 0) {
        Some(i) => Some(i),
        None => first_set(has_marker, 0),
    }
}

proof fn lemma_first_set(flags: Seq<bool>, i: int)
    requires
        0 <= i,
    ensures
        match first_set(flags, i) {
            Some(r) => i <= r < flags.len() && flags[r] && forall|j: int| i <= j < r ==> !flags[j],
            None => forall|j: int| i <= j < flags.len() ==> !flags[j],
        },
    decreases flags.len() - i,
{
    if i < flags.len() && !flags[i] {
        lemma_first_set(flags, i + 1);
    }
}

/// The chosen root: when some ancestor holds a `.git`, the innermost such
/// ancestor (marker files do not count then); otherwise the innermost
/// ancestor holding a marker; `None` when no ancestor holds either.
pub proof fn lemma_root_choice(has_git: Seq<bool>, has_marker: Seq<bool>)
    ensures
        (exists|j: int| 0 <= j < has_git.len() && has_git[j]) ==> (spec_choose_root(has_git, has_marker) matches Some(
            r,
        ) && 0 <= r < has_git.len() && has_git[r] && forall|j: int| 0 <= j < r ==> !has_git[j]),
        (forall|j: int| 0 <= j < has_git.len() ==> !has_git[j]) ==> match spec_choose_root(has_git, has_marker) {
            Some(r) => 0 <= r < has_marker.len() && has_marker[r] && forall|j: int| 0 <= j < r ==> !has_marker[j],
            None => forall|j: int| 0 <= j < has_marker.len() ==> !has_marker[j],
        },
{
    lemma_first_set(has_git, 0);
    lemma_first_set(has_marker, 0);
}

fn first_flag(flags: &[bool]) -> (r: Option<usize>)
    ensures
        r == (match first_set(flags@, 0) {
            Some(i) => Some(i as usize),
            None => None,
        }),
        r matches Some(i) ==> i < flags@.len(),
{
    let mut i: usize = 0;
    while i < flags.len()
        invariant
            i <= flags@.len(),
            first_set(flags@, 0) == first_set(flags@, i as int),
        decreases flags@.len() - i,
    {
        if flags[i] {
            return Some(i);
        }
        i = i + 1;
    }
    None
}

/// Choose the project root among the ancestors of a start directory
/// (innermost first): the innermost one holding a `.git`, else the
/// nearest one holding a marker file; `None` when neither exists.
pub fn detect_root(has_git: &[bool], has_marker: &[bool]) -> (r: Option<usize>)
    ensures
        r == (match spec_choose_root(has_git@, has_marker@) {
            Some(i) => Some(i as usize),
            None => None,
        }),
{
    match first_flag(has_git) {
        Some(i) => Some(i),
        None => first_flag(has_marker),
    }
}

/// The projects other than the one rooted at `root` (component-wise path
/// equality), in order.
pub open spec fn others(ps: Seq<ProjectView>, root: Seq<char>) -> Seq<ProjectView>
    decreases ps.len(),
{
    if ps.len() == 0 {
        ps
    } else if components(ps.last().root) == components(root) {
        others(ps.drop_last(), root)
    } else {
        others(ps.drop_last(), root).push(ps.last())
    }
}

/// The registry after upserting `p`: `p` first, then every other project
/// in its old order.
pub open spec fn upserted(ps: Seq<ProjectView>, p: ProjectView) -> Seq<ProjectView> {
    seq![p] + others(ps, p.root)
}

/// The views of a list of projects.
pub open spec fn project_views(ps: Seq<Project>) -> Seq<ProjectView> {
    ps.map_values(|p: Project| p@)
}

/// The known projects, most recently used first.
#[derive(Debug, Clone, PartialEq, Eq)]
pub struct Registry {
    pub projects: Vec<Project>,
}

impl Default for Registry {
    fn default() -> (r: Self)
        ensures
            r.projects@.len() == 0,
    {
        Registry { projects: Vec::new() }
    }
}

impl Registry {
    /// Add the project rooted at `root`, or move it to the front; return
    /// its entry.
    pub fn upsert(&mut self, root: &str) -> (p: Project)
        ensures
            p.root@ == root@,
            p.name@ == project_name(root@),
            project_views(final(self).projects@) == upserted(
                project_views(old(self).projects@),
                p@,
            ),
    {
        let project = Project::new(root.to_owned());
        let ghost ps = project_views(self.projects@);
        let mut kept: Vec<Project> = Vec::new();
        kept.push(project.copy());
        let mut i: usize = 0;
        while i < self.projects.len()
            invariant
                i <= self.projects@.len(),
                ps == project_views(self.projects@),
                project.root@ == root@,
                project_views(kept@) == seq![project@] + others(ps.take(i as int), project.root@),
            decreases self.projects@.len() - i,
        {
            let q = &self.projects[i];
            let same = same_path(q.root.as_str(), project.root.as_str());
            let ghost before = project_views(kept@);
            proof {
                assert(ps.take(i + 1).drop_last() =~= ps.take(i as int));
                assert(ps.take(i + 1).last() == q@);
            }
            if !same {
                kept.push(q.copy());
                assert(project_views(kept@) =~= before.push(q@));
            }
            i = i + 1;
        }
        assert(ps.take(self.projects@.len() as int) =~= ps);
        self.projects = kept;
        project
    }

    /// The projects, most recently used first.
    pub fn list(&self) -> (r: &[Project])
        ensures
            r@ == self.projects@,
    {
        self.projects.as_slice()
    }

    /// The number of known projects.
    pub fn len(&self) -> (n: usize)
        ensures
            n == self.projects@.len(),
    {
        self.projects.len()
    }
}

/// Whether the projects' roots are pairwise different paths.
pub open spec fn distinct_roots(ps: Seq<ProjectView>) -> bool {
    forall|i: int, j: int|
        0 <= i < j < ps.len() ==> components(#[trigger] ps[i].root) != components(
            #[trigger] ps[j].root,
        )
}

proof fn lemma_others_subseq(ps: Seq<ProjectView>, root: Seq<char>)
    ensures
        others(ps, root).len() <= ps.len(),
        forall|k: int|
            #![trigger others(ps, root)[k]]
            0 <= k < others(ps, root).len() ==> components(others(ps, root)[k].root) != components(
                root,
            ) && ps.contains(others(ps, root)[k]),
        distinct_roots(ps) ==> distinct_roots(others(ps, root)),
    decreases ps.len(),
{
    if ps.len() > 0 {
        let q = ps.drop_last();
        lemma_others_subseq(q, root);
        let o = others(q, root);
        assert forall|k: int| #![trigger o[k]] 0 <= k < o.len() implies ps.contains(o[k]) by {
            assert(q.contains(o[k]));
            let m = choose|m: int| 0 <= m < q.len() && q[m] == o[k];
            assert(ps[m] == o[k]);
        }
        if components(ps.last().root) != components(root) {
            let o2 = o.push(ps.last());
            assert(o2[o.len() as int] == ps.last());
            assert(ps[ps.len() - 1] == ps.last());
            assert forall|k: int| #![trigger o2[k]] 0 <= k < o2.len() implies ps.contains(o2[k]) by {
                if k < o.len() {
                    assert(o2[k] == o[k]);
                } else {
                    assert(ps[ps.len() - 1] == o2[k]);
                }
            }
            if distinct_roots(ps) {
                assert(distinct_roots(q));
                assert forall|i: int, j: int| 0 <= i < j < o2.len() implies components(
                    #[trigger] o2[i].root,
                ) != components(#[trigger] o2[j].root) by {
                    if j == o.len() {
                        assert(o2[i] == o[i]);
                        assert(q.contains(o[i]));
                        let m = choose|m: int| 0 <= m < q.len() && q[m] == o[i];
                        assert(ps[m] == o2[i]);
                        assert(ps[ps.len() - 1] == o2[j]);
                    } else {
                        assert(o2[i] == o[i]);
                        assert(o2[j] == o[j]);
                    }
                }
            }
        }
    }
}

/// Upserting keeps one entry per root: the new entry first, and no
/// other entry with the same root.
pub proof fn lemma_upsert_distinct(ps: Seq<ProjectView>, p: ProjectView)
    requires
        distinct_roots(ps),
    ensures
        distinct_roots(upserted(ps, p)),
        upserted(ps, p)[0] == p,
        upserted(ps, p).len() <= ps.len() + 1,
{
    lemma_others_subseq(ps, p.root);
    let o = others(ps, p.root);
    let u = upserted(ps, p);
    assert forall|i: int, j: int| 0 <= i < j < u.len() implies components(#[trigger] u[i].root)
        != components(#[trigger] u[j].root) by {
        assert(u[j] == o[j - 1]);
        if i > 0 {
            assert(u[i] == o[i - 1]);
        }
    }
}

/// The cap on each project's recent files.
pub open spec fn recents_cap() -> nat {
    100
}

/// `l` without `rel`.
pub open spec fn without(l: Seq<Seq<char>>, rel: Seq<char>) -> Seq<Seq<char>>
    decreases l.len(),
{
    if l.len() == 0 {
        l
    } else if l.last() == rel {
        without(l.drop_last(), rel)
    } else {
        without(l.drop_last(), rel).push(l.last())
    }
}

/// A recents list after recording `rel`: `rel` first, the rest in order
/// without it, capped.
pub open spec fn recorded(l: Seq<Seq<char>>, rel: Seq<char>) -> Seq<Seq<char>> {
    let full = seq![rel] + without(l, rel);
    if full.len() > recents_cap() {
        full.take(recents_cap() as int)
    } else {
        full
    }
}

/// Whether two char slices hold the same chars.
fn chars_same(a: &[char], b: &[char]) -> (r: bool)
    ensures
        r == (a@ == b@),
{
    if a.len() != b.len() {
        return false;
    }
    let mut i: usize = 0;
    while i < a.len()
        invariant
            a@.len() == b@.len(),
            i <= a@.len(),
            forall|j: int| 0 <= j < i ==> a@[j] == b@[j],
        decreases a@.len() - i,
    {
        if a[i] != b[i] {
            return false;
        }
        i = i + 1;
    }
    assert(a@ =~= b@);
    true
}

/// One project's recents: its root and its list.
pub open spec fn entry_view(e: (String, Vec<String>)) -> (Seq<char>, Seq<Seq<char>>) {
    (e.0@, e.1@.map_values(|s: String| s@))
}

/// The map of a list of entries.
pub open spec fn entries_map(es: Seq<(String, Vec<String>)>) -> Map<Seq<char>, Seq<Seq<char>>>
    decreases es.len(),
{
    if es.len() == 0 {
        Map::empty()
    } else {
        entries_map(es.drop_last()).insert(entry_view(es.last()).0, entry_view(es.last()).1)
    }
}

/// Whether the entries' roots are strictly increasing.
pub open spec fn sorted_keys(es: Seq<(String, Vec<String>)>) -> bool {
    forall|i: int, j: int| 0 <= i < j < es.len() ==> lex_lt(#[trigger] es[i].0@, #[trigger] es[j].0@)
}

/// Recently opened files per project root (most recent first).
#[derive(Debug, Clone, PartialEq, Eq)]
pub struct Recents {
    per_project: Vec<(String, Vec<String>)>,
}

impl Default for Recents {
    fn default() -> (r: Self)
        ensures
            r@ == Map::<Seq<char>, Seq<Seq<char>>>::empty(),
            r.wf(),
    {
        Recents { per_project: Vec::new() }
    }
}

impl View for Recents {
    type V = Map<Seq<char>, Seq<Seq<char>>>;

    closed spec fn view(&self) -> Map<Seq<char>, Seq<Seq<char>>> {
        entries_map(self.per_project@)
    }
}

proof fn lemma_entries_map_get(es: Seq<(String, Vec<String>)>, i: int)
    requires
        sorted_keys(es),
        0 <= i < es.len(),
    ensures
        entries_map(es).contains_key(es[i].0@),
        entries_map(es)[es[i].0@] == entry_view(es[i]).1,
    decreases es.len(),
{
    if i < es.len() - 1 {
        let q = es.drop_last();
        assert(sorted_keys(q));
        lemma_entries_map_get(q, i);
        lemma_lex_total(es[i].0@, es.last().0@);
        assert(lex_lt(es[i].0@, es[es.len() - 1].0@));
    }
}

proof fn lemma_entries_map_absent(es: Seq<(String, Vec<String>)>, k: Seq<char>)
    requires
        forall|i: int| 0 <= i < es.len() ==> #[trigger] es[i].0@ != k,
    ensures
        !entries_map(es).contains_key(k),
    decreases es.len(),
{
    if es.len() > 0 {
        lemma_entries_map_absent(es.drop_last(), k);
    }
}

proof fn lemma_entries_map_dom(es: Seq<(String, Vec<String>)>, k: Seq<char>)
    requires
        entries_map(es).contains_key(k),
    ensures
        exists|i: int| 0 <= i < es.len() && #[trigger] es[i].0@ == k,
    decreases es.len(),
{
    if es.len() > 0 && es.last().0@ != k {
        lemma_entries_map_dom(es.drop_last(), k);
        let i = choose|i: int| 0 <= i < es.len() - 1 && #[trigger] es.drop_last()[i].0@ == k;
        assert(es[i].0@ == k);
    } else if es.len() > 0 {
        assert(es[es.len() - 1].0@ == k);
    }
}

proof fn lemma_entries_map_update(
    es: Seq<(String, Vec<String>)>,
    i: int,
    e: (String, Vec<String>),
)
    requires
        sorted_keys(es),
        0 <= i < es.len(),
        e.0@ == es[i].0@,
    ensures
        sorted_keys(es.update(i, e)),
        entries_map(es.update(i, e)) == entries_map(es).insert(e.0@, entry_view(e).1),
{
    let u = es.update(i, e);
    let target = entries_map(es).insert(e.0@, entry_view(e).1);
    assert(sorted_keys(u)) by {
        assert forall|a: int, b: int| 0 <= a < b < u.len() implies lex_lt(
            #[trigger] u[a].0@,
            #[trigger] u[b].0@,
        ) by {
            assert(lex_lt(es[a].0@, es[b].0@));
        }
    }
    assert forall|k: Seq<char>| #[trigger] entries_map(u).dom().contains(k) implies target.dom().contains(
        k,
    ) by {
        lemma_entries_map_dom(u, k);
        let j = choose|j: int| 0 <= j < u.len() && #[trigger] u[j].0@ == k;
        if j != i {
            lemma_entries_map_get(es, j);
        }
    }
    assert forall|k: Seq<char>| #[trigger] target.dom().contains(k) implies entries_map(
        u,
    ).dom().contains(k) && entries_map(u)[k] == target[k] by {
        if k == e.0@ {
            lemma_entries_map_get(u, i);
        } else {
            lemma_entries_map_dom(es, k);
            let j = choose|j: int| 0 <= j < es.len() && #[trigger] es[j].0@ == k;
            lemma_entries_map_get(es, j);
            lemma_entries_map_get(u, j);
        }
    }
    assert(entries_map(u).dom() =~= target.dom());
    assert(entries_map(u) =~= target);
}

proof fn lemma_entries_map_insert(
    es: Seq<(String, Vec<String>)>,
    i: int,
    e: (String, Vec<String>),
)
    requires
        sorted_keys(es),
        0 <= i <= es.len(),
        forall|j: int| 0 <= j < i ==> lex_lt(#[trigger] es[j].0@, e.0@),
        forall|j: int| i <= j < es.len() ==> lex_lt(e.0@, #[trigger] es[j].0@),
    ensures
        sorted_keys(es.insert(i, e)),
        entries_map(es.insert(i, e)) == entries_map(es).insert(e.0@, entry_view(e).1),
{
    let u = es.insert(i, e);
    let target = entries_map(es).insert(e.0@, entry_view(e).1);
    es.insert_ensures(i, e);
    assert(sorted_keys(u)) by {
        assert forall|a: int, b: int| 0 <= a < b < u.len() implies lex_lt(
            #[trigger] u[a].0@,
            #[trigger] u[b].0@,
        ) by {
            if b < i {
                assert(u[a] == es[a]);
                assert(u[b] == es[b]);
                assert(lex_lt(es[a].0@, es[b].0@));
            } else if b == i {
                assert(u[a] == es[a]);
                assert(lex_lt(es[a].0@, e.0@));
            } else {
                assert(u[b] == es[b - 1]);
                assert(lex_lt(e.0@, es[b - 1].0@));
                if a < i {
                    assert(u[a] == es[a]);
                    assert(lex_lt(es[a].0@, es[b - 1].0@));
                } else if a > i {
                    assert(u[a] == es[a - 1]);
                    assert(lex_lt(es[a - 1].0@, es[b - 1].0@));
                }
            }
        }
    }
    assert forall|k: Seq<char>| #[trigger] entries_map(u).dom().contains(k) implies target.dom().contains(
        k,
    ) by {
        lemma_entries_map_dom(u, k);
        let j = choose|j: int| 0 <= j < u.len() && #[trigger] u[j].0@ == k;
        if j < i {
            assert(u[j] == es[j]);
            lemma_entries_map_get(es, j);
        } else if j > i {
            assert(u[j] == es[j - 1]);
            lemma_entries_map_get(es, j - 1);
        }
    }
    assert forall|k: Seq<char>| #[trigger] target.dom().contains(k) implies entries_map(
        u,
    ).dom().contains(k) && entries_map(u)[k] == target[k] by {
        if k == e.0@ {
            lemma_entries_map_get(u, i);
        } else {
            lemma_entries_map_dom(es, k);
            let j = choose|j: int| 0 <= j < es.len() && #[trigger] es[j].0@ == k;
            lemma_entries_map_get(es, j);
            if j < i {
                assert(u[j] == es[j]);
                lemma_entries_map_get(u, j);
            } else {
                assert(u[j + 1] == es[j]);
                lemma_entries_map_get(u, j + 1);
            }
        }
    }
    assert(entries_map(u).dom() =~= target.dom());
    assert(entries_map(u) =~= target);
}

/// The recents list of `root` in `m` (empty when it has none).
pub open spec fn recents_of(m: Map<Seq<char>, Seq<Seq<char>>>, root: Seq<char>) -> Seq<Seq<char>> {
    if m.contains_key(root) {
        m[root]
    } else {
        seq![]
    }
}

/// The string views of a list of strings.
pub open spec fn string_views(v: Seq<String>) -> Seq<Seq<char>> {
    v.map_values(|s: String| s@)
}

/// `l` with `rel` recorded.
fn record_in(l: &Vec<String>, rel: &str) -> (r: Vec<String>)
    ensures
        string_views(r@) == recorded(string_views(l@), rel@),
{
    let ghost lv = string_views(l@);
    let mut out: Vec<String> = Vec::new();
    out.push(rel.to_owned());
    let mut i: usize = 0;
    while i < l.len()
        invariant
            i <= l@.len(),
            lv == string_views(l@),
            string_views(out@) == seq![rel@] + without(lv.take(i as int), rel@),
        decreases l@.len() - i,
    {
        let ghost before = string_views(out@);
        proof {
            assert(lv.take(i + 1).drop_last() =~= lv.take(i as int));
            assert(lv.take(i + 1).last() == l@[i as int]@);
        }
        if !crate::text::str_eq(l[i].as_str(), rel) {
            out.push(l[i].clone());
            assert(string_views(out@) =~= before.push(l@[i as int]@));
        }
        i = i + 1;
    }
    assert(lv.take(l@.len() as int) =~= lv);
    if out.len() > 100 {
        let ghost full = string_views(out@);
        out.truncate(100);
        assert(string_views(out@) =~= full.take(100));
    }
    out
}

impl Recents {
    /// The entries are sorted by root, one per root.
    pub closed spec fn wf(&self) -> bool {
        sorted_keys(self.per_project@)
    }

    /// Record `rel` as recently opened in the project rooted at `root`:
    /// it moves to the front, appears once, and the list is capped.
    pub fn add(&mut self, root: &str, rel: &str)
        requires
            old(self).wf(),
        ensures
            final(self).wf(),
            final(self)@ == old(self)@.insert(root@, recorded(recents_of(old(self)@, root@), rel@)),
    {
        let current = self.list(root);
        let updated = record_in(&current, rel);
        self.set_entry(root, updated);
    }

    /// The recents holding `entries`, a later entry for a root replacing
    /// an earlier one.
    pub fn from_entries(entries: Vec<(String, Vec<String>)>) -> (r: Recents)
        ensures
            r.wf(),
            r@ == entries_map(entries@),
    {
        let mut r = Recents { per_project: Vec::new() };
        let ghost orig = entries@;
        let mut rest = entries;
        let ghost mut k: int = 0;
        assert(orig.skip(0) =~= orig);
        while rest.len() > 0
            invariant
                0 <= k <= orig.len(),
                rest@ == orig.skip(k),
                r.wf(),
                r@ == entries_map(orig.take(k)),
            decreases rest@.len(),
        {
            let e = rest.remove(0);
            proof {
                assert(orig.skip(k)[0] == orig[k]);
                assert(orig.take(k + 1).drop_last() =~= orig.take(k));
                assert(orig.take(k + 1).last() == orig[k]);
                assert(orig.skip(k).subrange(1, orig.skip(k).len() as int) =~= orig.skip(k + 1));
            }
            r.set_entry(e.0.as_str(), e.1);
            proof {
                k = k + 1;
            }
        }
        assert(orig.take(orig.len() as int) =~= orig);
        r
    }

    /// Set the list of the project rooted at `root` to `list`.
    fn set_entry(&mut self, root: &str, list: Vec<String>)
        requires
            old(self).wf(),
        ensures
            final(self).wf(),
            final(self)@ == old(self)@.insert(root@, string_views(list@)),
    {
        let key = crate::text::chars_of(root);
        let n = self.per_project.len();
        let mut i: usize = 0;
        while i < n
            invariant
                n == self.per_project@.len(),
                i <= n,
                key@ == root@,
                sorted_keys(self.per_project@),
                self.per_project@ == old(self).per_project@,
                forall|j: int| 0 <= j < i ==> lex_lt(#[trigger] self.per_project@[j].0@, root@),
            ensures
                self.per_project@ == old(self).per_project@,
                i <= n,
                n == self.per_project@.len(),
                sorted_keys(self.per_project@),
                forall|j: int| 0 <= j < i ==> lex_lt(#[trigger] self.per_project@[j].0@, root@),
                i < n ==> lex_lt(root@, self.per_project@[i as int].0@),
            decreases n - i,
        {
            let k = crate::text::chars_of(self.per_project[i].0.as_str());
            if chars_same(k.as_slice(), key.as_slice()) {
                proof {
                    lemma_entries_map_get(self.per_project@, i as int);
                }
                let name = self.per_project[i].0.clone();
                let ghost es = self.per_project@;
                let e = (name, list);
                proof {
                    assert(entry_view(e).1 =~= string_views(e.1@));
                    lemma_entries_map_update(es, i as int, e);
                }
                self.per_project.set(i, e);
                assert(self.per_project@ =~= es.update(i as int, e));
                return ;
            }
            if chars_lt(key.as_slice(), k.as_slice()) {
                break;
            }
            proof {
                lemma_lex_total(root@, self.per_project@[i as int].0@);
            }
            i = i + 1;
        }
        proof {
            assert forall|j: int| i <= j < n implies lex_lt(root@, #[trigger] self.per_project@[j].0@) by {
                if i < n {
                    assert(lex_lt(root@, self.per_project@[i as int].0@));
                    if j > i {
                        lemma_lex_trans(root@, self.per_project@[i as int].0@, self.per_project@[j].0@);
                    }
                }
            }
            assert forall|j: int| 0 <= j < n implies #[trigger] self.per_project@[j].0@ != root@ by {
                if j < i {
                    lemma_lex_total(root@, root@);
                } else {
                    lemma_lex_total(root@, root@);
                }
            }
            lemma_entries_map_absent(self.per_project@, root@);
        }
        let e = (root.to_owned(), list);
        let ghost es = self.per_project@;
        proof {
            assert(entry_view(e).1 =~= string_views(e.1@));
            lemma_entries_map_insert(es, i as int, e);
        }
        self.per_project.insert(i, e);
    }

    /// The recents of the project rooted at `root` (most recent first);
    /// empty when it has none.
    pub fn list(&self, root: &str) -> (r: Vec<String>)
        requires
            self.wf(),
        ensures
            string_views(r@) == recents_of(self@, root@),
    {
        let key = crate::text::chars_of(root);
        let mut i: usize = 0;
        while i < self.per_project.len()
            invariant
                i <= self.per_project@.len(),
                key@ == root@,
                sorted_keys(self.per_project@),
                forall|j: int| 0 <= j < i ==> #[trigger] self.per_project@[j].0@ != root@,
            decreases self.per_project@.len() - i,
        {
            let k = crate::text::chars_of(self.per_project[i].0.as_str());
            if chars_same(k.as_slice(), key.as_slice()) {
                proof {
                    lemma_entries_map_get(self.per_project@, i as int);
                }
                let l = &self.per_project[i].1;
                let mut out: Vec<String> = Vec::new();
                let mut j: usize = 0;
                while j < l.len()
                    invariant
                        j <= l@.len(),
                        string_views(out@) == string_views(l@).take(j as int),
                    decreases l@.len() - j,
                {
                    let ghost before = string_views(out@);
                    let c = l[j].clone();
                    out.push(c);
                    assert(string_views(out@) =~= before.push(l@[j as int]@));
                    assert(string_views(l@).take(j + 1) =~= string_views(l@).take(j as int).push(
                        l@[j as int]@,
                    ));
                    j = j + 1;
                }
                assert(string_views(l@).take(l@.len() as int) =~= string_views(l@));
                return out;
            }
            i = i + 1;
        }
        proof {
            lemma_entries_map_absent(self.per_project@, root@);
        }
        Vec::new()
    }

    /// The entries, for persisting: each root with its list.
    pub fn entries(&self) -> (r: &[(String, Vec<String>)])
        ensures
            entries_map(r@) == self@,
    {
        self.per_project.as_slice()
    }
}

/// Recording keeps a recents list duplicate-free, puts the file first,
/// and never exceeds the cap.
pub proof fn lemma_recorded(l: Seq<Seq<char>>, rel: Seq<char>)
    requires
        l.no_duplicates(),
    ensures
        recorded(l, rel).len() > 0,
        recorded(l, rel)[0] == rel,
        recorded(l, rel).len() <= recents_cap(),
        recorded(l, rel).no_duplicates(),
{
    lemma_without(l, rel);
    let full = seq![rel] + without(l, rel);
    assert forall|i: int, j: int| 0 <= i < j < full.len() implies full[i] != full[j] by {
        if i > 0 {
            assert(full[i] == without(l, rel)[i - 1]);
        }
        assert(full[j] == without(l, rel)[j - 1]);
    }
    assert(full.no_duplicates());
}

proof fn lemma_without(l: Seq<Seq<char>>, rel: Seq<char>)
    requires
        l.no_duplicates(),
    ensures
        without(l, rel).no_duplicates(),
        forall|k: int| 0 <= k < without(l, rel).len() ==> #[trigger] without(l, rel)[k] != rel,
        forall|k: int|
            0 <= k < without(l, rel).len() ==> l.contains(#[trigger] without(l, rel)[k]),
    decreases l.len(),
{
    if l.len() > 0 {
        let q = l.drop_last();
        assert(q.no_duplicates());
        lemma_without(q, rel);
        let w = without(q, rel);
        assert forall|k: int| 0 <= k < w.len() implies l.contains(#[trigger] w[k]) by {
            assert(q.contains(w[k]));
            let m = choose|m: int| 0 <= m < q.len() && q[m] == w[k];
            assert(l[m] == w[k]);
        }
        if l.last() != rel {
            let w2 = w.push(l.last());
            assert(l[l.len() - 1] == l.last());
            assert forall|a: int, b: int| 0 <= a < b < w2.len() implies w2[a] != w2[b] by {
                if b == w.len() {
                    assert(q.contains(w[a]));
                    let m = choose|m: int| 0 <= m < q.len() && q[m] == w[a];
                    assert(l[m] == w[a]);
                }
            }
            assert(w2.no_duplicates());
            assert forall|k: int| 0 <= k < w2.len() implies l.contains(#[trigger] w2[k]) by {
                if k == w.len() {
                    assert(l[l.len() - 1] == w2[k]);
                }
            }
        }
    }
}

/// The persisted project state: the registry and the recents, stored
/// under one base directory.
pub struct ProjectStore {
    base: String,
    pub registry: Registry,
    pub recents: Recents,
}

impl ProjectStore {
    /// The store under `base` holding the loaded `registry` and `recents`.
    pub fn open(base: String, registry: Registry, recents: Recents) -> (s: Self)
        ensures
            s.base() == base@,
            s.stored_registry() == registry,
            s.stored_recents() == recents,
    {
        ProjectStore { base, registry, recents }
    }

    /// The base directory.
    pub closed spec fn base(&self) -> Seq<char> {
        self.base@
    }

    /// The registry held.
    pub closed spec fn stored_registry(&self) -> Registry {
        self.registry
    }

    /// The recents held.
    pub closed spec fn stored_recents(&self) -> Recents {
        self.recents
    }

    /// Where the registry is persisted: `<base>/projects.json`.
    pub fn registry_path(&self) -> (p: String)
        ensures
            p@ == spec_join(self.base(), "projects.json"@),
    {
        join(self.base.as_str(), "projects.json")
    }

    /// Where the recents are persisted: `<base>/recents.json`.
    pub fn recents_path(&self) -> (p: String)
        ensures
            p@ == spec_join(self.base(), "recents.json"@),
    {
        join(self.base.as_str(), "recents.json")
    }
}

} // verus!
