//! Building and refreshing the index from parsed files, the Rust tables'
//! map maintenance, and the which-function lookup.

use vstd::prelude::*;
use crate::model::path::{joined, spec_strip_prefix, strip_prefix, join_components, views};
use crate::nav::index::symbol_index::{
    lemma_total_len_remove, outline_view, total_len, SymbolIndex, SymbolIndexView,
};
use crate::nav::index::{tables_empty, RustTables, Symbol, SymbolView, TablesView};

verus! {

/// The number of lines a definition spans beyond its first
/// (`end_line - line`, saturating at zero).
pub open spec fn span_len(s: Symbol) -> int {
    if s.end_line >= s.line {
        s.end_line - s.line
    } else {
        0
    }
}

/// Whether definition `s` beats the current best `b` for the innermost
/// extent: a narrower span, or an equal span starting later.
pub open spec fn beats(s: Symbol, b: Symbol) -> bool {
    span_len(s) < span_len(b) || (span_len(s) == span_len(b) && s.line > b.line)
}

/// The innermost definition among the first `k` of `outline` whose extent
/// contains `line`.
spec fn best_upto(outline: Seq<Symbol>, line: usize, k: int) -> Option<int>
    decreases k,
{
    if k <= 0 {
        None
    } else {
        let prev = best_upto(outline, line, k - 1);
        let s = outline[k - 1];
        if s.line <= line && line <= s.end_line && match prev {
            None => true,
            Some(b) => beats(s, outline[b]),
        } {
            Some(k - 1)
        } else {
            prev
        }
    }
}

/// Whether the extent of `s` contains `line`.
pub open spec fn encloses(s: Symbol, line: usize) -> bool {
    s.line <= line && line <= s.end_line
}

/// Definition `i` of `o` is the innermost one containing `line`: it
/// contains the line, no definition containing the line is narrower or
/// equally narrow and later, and it comes first among those as good.
pub open spec fn is_innermost(o: Seq<Symbol>, line: usize, i: int) -> bool {
    &&& 0 <= i < o.len()
    &&& encloses(o[i], line)
    &&& forall|j: int| 0 <= j < o.len() && encloses(#[trigger] o[j], line) ==> !beats(o[j], o[i])
    &&& forall|j: int| 0 <= j < i && encloses(#[trigger] o[j], line) ==> beats(o[i], o[j])
}

proof fn lemma_best_upto(o: Seq<Symbol>, line: usize, k: int)
    requires
        0 <= k <= o.len(),
    ensures
        match best_upto(o, line, k) {
            None => forall|j: int| 0 <= j < k ==> !encloses(#[trigger] o[j], line),
            Some(i) => {
                &&& 0 <= i < k
                &&& encloses(o[i], line)
                &&& forall|j: int| 0 <= j < k && encloses(#[trigger] o[j], line) ==> !beats(o[j], o[i])
                &&& forall|j: int| 0 <= j < i && encloses(#[trigger] o[j], line) ==> beats(o[i], o[j])
            },
        },
    decreases k,
{
    if k > 0 {
        lemma_best_upto(o, line, k - 1);
    }
}

/// The innermost (narrowest) definition of `outline` whose
/// `[line, end_line]` extent contains `line` (the later one among equally
/// narrow ones, the first among identical extents); `None` when the line
/// is outside every definition.
pub fn enclosing_symbol(outline: &[Symbol], line: usize) -> (r: Option<&Symbol>)
    ensures
        match r {
            None => forall|j: int| 0 <= j < outline@.len() ==> !encloses(#[trigger] outline@[j], line),
            Some(s) => exists|i: int| is_innermost(outline@, line, i) && s == &outline@[i],
        },
{
    let mut best: Option<usize> = None;
    let mut i: usize = 0;
    while i < outline.len()
        invariant
            i <= outline@.len(),
            best == (match best_upto(outline@, line, i as int) {
                Some(j) => Some(j as usize),
                None => None,
            }),
            best_upto(outline@, line, i as int) matches Some(j) ==> 0 <= j < i,
        decreases outline@.len() - i,
    {
        let s = &outline[i];
        if s.line <= line && line <= s.end_line {
            let span = if s.end_line >= s.line {
                s.end_line - s.line
            } else {
                0
            };
            let take = match best {
                None => true,
                Some(b) => {
                    let bs = &outline[b];
                    let bspan = if bs.end_line >= bs.line {
                        bs.end_line - bs.line
                    } else {
                        0
                    };
                    span < bspan || (span == bspan && s.line > bs.line)
                },
            };
            if take {
                best = Some(i);
            }
        }
        i = i + 1;
    }
    proof {
        lemma_best_upto(outline@, line, outline@.len() as int);
    }
    match best {
        Some(b) => {
            assert(is_innermost(outline@, line, b as int));
            Some(&outline[b])
        },
        None => None,
    }
}

/// The outlines after a file's outline is set to `syms` (an empty outline
/// removes the file).
pub open spec fn after_outline(
    files: Map<Seq<char>, Seq<SymbolView>>,
    path: Seq<char>,
    syms: Seq<SymbolView>,
) -> Map<Seq<char>, Seq<SymbolView>> {
    if syms.len() == 0 {
        files.remove(path)
    } else {
        files.insert(path, syms)
    }
}

/// The tables after a file's tables are set to `t` (empty tables remove
/// the file's entry).
pub open spec fn after_tables(tm: Map<Seq<char>, TablesView>, path: Seq<char>, t: TablesView) -> Map<Seq<char>, TablesView> {
    if tables_empty(t) {
        tm.remove(path)
    } else {
        tm.insert(path, t)
    }
}

/// The number of definitions across a list of parsed files.
pub open spec fn parsed_count(es: Seq<(String, Vec<Symbol>, RustTables)>) -> nat
    decreases es.len(),
{
    if es.len() == 0 {
        0
    } else {
        parsed_count(es.drop_last()) + es.last().1@.len()
    }
}

/// The index built from parsed files in order: a file with definitions
/// gets its outline, and every file its tables.
pub open spec fn built(es: Seq<(String, Vec<Symbol>, RustTables)>) -> SymbolIndexView
    decreases es.len(),
{
    if es.len() == 0 {
        SymbolIndexView { files: Map::empty(), tables: Map::empty() }
    } else {
        let prev = built(es.drop_last());
        let e = es.last();
        SymbolIndexView {
            files: if e.1@.len() > 0 {
                prev.files.insert(e.0@, outline_view(e.1@))
            } else {
                prev.files
            },
            tables: after_tables(prev.tables, e.0@, e.2@),
        }
    }
}

proof fn lemma_count_prefix(es: Seq<(String, Vec<Symbol>, RustTables)>, k: int)
    requires
        0 <= k <= es.len(),
    ensures
        parsed_count(es.take(k)) <= parsed_count(es),
    decreases es.len(),
{
    if k < es.len() {
        assert(es.drop_last().take(k) =~= es.take(k));
        lemma_count_prefix(es.drop_last(), k);
    } else {
        assert(es.take(k) =~= es);
    }
}

proof fn lemma_total_len_le_remove<X>(m: Map<Seq<char>, Seq<X>>, k: Seq<char>)
    requires
        m.dom().finite(),
    ensures
        total_len(m.remove(k)) <= total_len(m),
{
    if m.contains_key(k) {
        lemma_total_len_remove(m, k);
    } else {
        assert(m.remove(k) =~= m);
    }
}

/// Assemble an index from parsed files, in order: each file with at least
/// one definition gets its outline, and each file its Rust tables.
pub fn build_index(entries: Vec<(String, Vec<Symbol>, RustTables)>) -> (index: SymbolIndex)
    requires
        forall|i: int| 0 <= i < entries@.len() ==> (#[trigger] entries@[i]).2.wf(),
        parsed_count(entries@) <= usize::MAX,
    ensures
        index.wf(),
        index@ == built(entries@),
{
    let mut index = SymbolIndex::new();
    let mut rest = entries;
    let ghost orig = rest@;
    let mut k: usize = 0;
    let total = rest.len();
    proof {
        assert(orig.take(0) =~= Seq::<(String, Vec<Symbol>, RustTables)>::empty());
        assert(index@ == built(orig.take(0)));
    }
    while rest.len() > 0
        invariant
            total == orig.len(),
            k + rest@.len() == orig.len(),
            rest@ == orig.skip(k as int),
            index.wf(),
            index@ == built(orig.take(k as int)),
            total_len(index@.files) <= parsed_count(orig.take(k as int)),
            parsed_count(orig) <= usize::MAX,
            forall|i: int| 0 <= i < orig.len() ==> (#[trigger] orig[i]).2.wf(),
        decreases rest@.len(),
    {
        let (path, syms, tables) = rest.remove(0);
        proof {
            assert(orig[k as int] == (path, syms, tables));
            assert(rest@ =~= orig.skip(k + 1));
            let t = orig.take(k + 1);
            assert(t.drop_last() =~= orig.take(k as int));
            assert(t.last() == orig[k as int]);
            lemma_count_prefix(orig, k + 1);
            index.lemma_view_finite();
            lemma_total_len_le_remove(index@.files, path@);
        }
        let ghost v0 = index@;
        if syms.len() > 0 {
            index.set_file(path.as_str(), syms);
        }
        let ghost v1 = index@;
        proof {
            index.lemma_view_finite();
            if v1.files != v0.files {
                lemma_total_len_remove(v1.files, path@);
                assert(v1.files.remove(path@) =~= v0.files.remove(path@));
            }
        }
        index.set_file_tables(path.as_str(), tables);
        k = k + 1;
    }
    proof {
        assert(orig.take(orig.len() as int) =~= orig);
    }
    index
}

/// A changed file: its absolute path, and its parsed outline and tables,
/// or `None` when it could not be read (deleted or unreadable).
pub struct ChangedFile {
    pub path: String,
    pub parsed: Option<(Vec<Symbol>, RustTables)>,
}

/// A changed file's parsed tables, if any, are well formed.
pub open spec fn parsed_wf(c: ChangedFile) -> bool {
    match c.parsed {
        Some(p) => p.1.wf(),
        None => true,
    }
}

/// The index after one changed file: nothing for a path outside `root`;
/// a parsed file replaces its outline and tables; an unreadable one loses
/// its outline, and its tables with it.
pub open spec fn refresh_step(v: SymbolIndexView, root: Seq<char>, c: ChangedFile) -> SymbolIndexView {
    match spec_strip_prefix(c.path@, root) {
        None => v,
        Some(cs) => {
            let rel = joined(cs);
            match c.parsed {
                Some(p) => SymbolIndexView {
                    files: after_outline(v.files, rel, outline_view(p.0@)),
                    tables: after_tables(v.tables, rel, p.1@),
                },
                None => SymbolIndexView {
                    files: v.files.remove(rel),
                    tables: if v.files.contains_key(rel) {
                        v.tables.remove(rel)
                    } else {
                        v.tables
                    },
                },
            }
        },
    }
}

/// The index after every changed file, in order.
pub open spec fn refreshed(v: SymbolIndexView, root: Seq<char>, cs: Seq<ChangedFile>) -> SymbolIndexView
    decreases cs.len(),
{
    if cs.len() == 0 {
        v
    } else {
        refresh_step(refreshed(v, root, cs.drop_last()), root, cs.last())
    }
}

/// The project-relative paths of the changed files under `root`, in order.
pub open spec fn touched_paths(root: Seq<char>, cs: Seq<ChangedFile>) -> Seq<Seq<char>>
    decreases cs.len(),
{
    if cs.len() == 0 {
        Seq::empty()
    } else {
        let prev = touched_paths(root, cs.drop_last());
        match spec_strip_prefix(cs.last().path@, root) {
            Some(c) => prev.push(joined(c)),
            None => prev,
        }
    }
}

/// The number of definitions parsed across the changed files.
pub open spec fn changed_count(cs: Seq<ChangedFile>) -> nat
    decreases cs.len(),
{
    if cs.len() == 0 {
        0
    } else {
        changed_count(cs.drop_last()) + match cs.last().parsed {
            Some(p) => p.0@.len(),
            None => 0,
        }
    }
}

proof fn lemma_changed_prefix(cs: Seq<ChangedFile>, k: int)
    requires
        0 <= k <= cs.len(),
    ensures
        changed_count(cs.take(k)) <= changed_count(cs),
    decreases cs.len(),
{
    if k < cs.len() {
        assert(cs.drop_last().take(k) =~= cs.take(k));
        lemma_changed_prefix(cs.drop_last(), k);
    } else {
        assert(cs.take(k) =~= cs);
    }
}

/// Apply the changed files to `index` in place: each one under `root`
/// replaces (parsed) or drops (unreadable) its outline and tables; the
/// project-relative paths touched come back in order.
pub fn refresh_in_place(root: &str, changed: Vec<ChangedFile>, index: &mut SymbolIndex) -> (touched: Vec<String>)
    requires
        old(index).wf(),
        forall|i: int| 0 <= i < changed@.len() ==> parsed_wf(#[trigger] changed@[i]),
        total_len(old(index)@.files) + changed_count(changed@) <= usize::MAX,
    ensures
        final(index).wf(),
        final(index)@ == refreshed(old(index)@, root@, changed@),
        touched@.map_values(|s: String| s@) == touched_paths(root@, changed@),
{
    let mut out: Vec<String> = Vec::new();
    let mut rest = changed;
    let ghost orig = rest@;
    let ghost v0 = index@;
    let mut k: usize = 0;
    let total = rest.len();
    proof {
        assert(orig.take(0) =~= Seq::<ChangedFile>::empty());
        assert(out@.map_values(|s: String| s@) =~= Seq::<Seq<char>>::empty());
    }
    while rest.len() > 0
        invariant
            total == orig.len(),
            k + rest@.len() == orig.len(),
            rest@ == orig.skip(k as int),
            index.wf(),
            index@ == refreshed(v0, root@, orig.take(k as int)),
            out@.map_values(|s: String| s@) == touched_paths(root@, orig.take(k as int)),
            total_len(index@.files) <= total_len(v0.files) + changed_count(orig.take(k as int)),
            total_len(v0.files) + changed_count(orig) <= usize::MAX,
            forall|i: int| 0 <= i < orig.len() ==> parsed_wf(#[trigger] orig[i]),
        decreases rest@.len(),
    {
        let c = rest.remove(0);
        let ghost t = orig.take(k + 1);
        proof {
            assert(orig[k as int] == c);
            assert(rest@ =~= orig.skip(k + 1));
            assert(t.drop_last() =~= orig.take(k as int));
            assert(t.last() == c);
            lemma_changed_prefix(orig, k + 1);
            index.lemma_view_finite();
        }
        let ghost w0 = index@;
        let ghost before = out@;
        match strip_prefix(c.path.as_str(), root) {
            None => {},
            Some(cs) => {
                let rel = join_components(cs.as_slice());
                match c.parsed {
                    Some((syms, tables)) => {
                        proof {
                            lemma_total_len_le_remove(w0.files, rel@);
                        }
                        index.set_file(rel.as_str(), syms);
                        proof {
                            index.lemma_view_finite();
                            if index@.files.contains_key(rel@) {
                                lemma_total_len_remove(index@.files, rel@);
                                assert(index@.files.remove(rel@) =~= w0.files.remove(rel@));
                            }
                        }
                        index.set_file_tables(rel.as_str(), tables);
                    },
                    None => {
                        proof {
                            lemma_total_len_le_remove(w0.files, rel@);
                        }
                        index.remove_file(rel.as_str());
                    },
                }
                out.push(rel);
                proof {
                    assert(out@.map_values(|s: String| s@) =~= before.map_values(|s: String| s@).push(joined(views(cs@))));
                }
            },
        }
        k = k + 1;
    }
    proof {
        assert(orig.take(orig.len() as int) =~= orig);
    }
    out
}

/// A refresh touches only the file it names: every other file keeps its
/// outline and its tables.
pub proof fn lemma_refresh_only_touches_its_file(v: SymbolIndexView, root: Seq<char>, c: ChangedFile, f: Seq<char>)
    requires
        !(spec_strip_prefix(c.path@, root) matches Some(cs) && joined(cs) == f),
    ensures
        refresh_step(v, root, c).files.contains_key(f) == v.files.contains_key(f),
        v.files.contains_key(f) ==> refresh_step(v, root, c).files[f] == v.files[f],
        refresh_step(v, root, c).tables.contains_key(f) == v.tables.contains_key(f),
        v.tables.contains_key(f) ==> refresh_step(v, root, c).tables[f] == v.tables[f],
{
}

/// Refreshing an unchanged file (the same non-empty outline and the same
/// non-empty tables) leaves the index as it was.
pub proof fn lemma_same_content_refresh_keeps_index(
    v: SymbolIndexView,
    path: Seq<char>,
    syms: Seq<SymbolView>,
    t: TablesView,
)
    requires
        v.files.contains_key(path),
        v.files[path] == syms,
        syms.len() > 0,
        v.tables.contains_key(path),
        v.tables[path] == t,
        !tables_empty(t),
    ensures
        after_outline(v.files, path, syms) == v.files,
        after_tables(v.tables, path, t) == v.tables,
{
    assert(v.files.insert(path, syms) =~= v.files);
    assert(v.tables.insert(path, t) =~= v.tables);
}

/// Removing a file after setting its outline and tables leaves no trace
/// of it: the index is as before, for a file it did not hold.
pub proof fn lemma_remove_undoes_set(v: SymbolIndexView, path: Seq<char>, syms: Seq<SymbolView>, t: TablesView)
    requires
        !v.files.contains_key(path),
        !v.tables.contains_key(path),
    ensures
        after_outline(v.files, path, syms).remove(path) == v.files,
        after_tables(v.tables, path, t).remove(path) == v.tables,
{
    assert(after_outline(v.files, path, syms).remove(path) =~= v.files);
    assert(after_tables(v.tables, path, t).remove(path) =~= v.tables);
}

} // verus!
