//! References search (`M-?`): the fixed-string, word-boundary,
//! token-filtered search configuration, and the "symbol under point"
//! ranking that picks what to search for.

use crate::model::buffer::{is_word_char, word_char};
use crate::search::rg::SearchConfig;
use crate::text::{byte_pos, char_len_utf8, lemma_byte_pos_step};
use vstd::prelude::*;

verus! {

broadcast use vstd::string::group_string_axioms;

/// The configuration of a references search of `symbol` under `root`:
/// fixed-string, word-boundary, case-sensitive, token-class filtered.
pub fn references_config(root: String, symbol: String) -> (c: SearchConfig)
    ensures
        c.root == root,
        c.pattern == symbol,
        c.word,
        c.fixed,
        !c.case_smart,
        !c.case_insensitive,
        c.glob is None,
        c.file_type is None,
        c.filter,
{
    SearchConfig {
        root,
        pattern: symbol,
        word: true,
        fixed: true,
        case_smart: false,
        case_insensitive: false,
        glob: None,
        file_type: None,
        filter: true,
    }
}

/// The identifier runs (maximal runs of word chars) of `s` from char `k`
/// on, where the current run started at char `start`: char ranges.
pub open spec fn runs_from(s: Seq<char>, k: int, start: int) -> Seq<(int, int)>
    decreases s.len() - k,
{
    if k < 0 || k >= s.len() {
        if start < s.len() {
            seq![(start, s.len() as int)]
        } else {
            seq![]
        }
    } else if !word_char(s[k]) {
        let here: Seq<(int, int)> = if start < k {
            seq![(start, k)]
        } else {
            seq![]
        };
        here + runs_from(s, k + 1, k + 1)
    } else {
        runs_from(s, k + 1, start)
    }
}

/// The identifiers of `s` as char ranges, in order.
pub open spec fn identifier_runs(s: Seq<char>) -> Seq<(int, int)> {
    runs_from(s, 0, 0)
}

/// The identifiers of `s` as byte ranges, in order.
pub open spec fn identifier_spans(s: Seq<char>) -> Seq<(int, int)> {
    identifier_runs(s).map_values(|r: (int, int)| (byte_pos(s, r.0) as int, byte_pos(s, r.1) as int))
}

/// The first index in `[i, n)` satisfying `p`.
pub open spec fn first_where(p: spec_fn(int) -> bool, i: int, n: int) -> Option<int>
    decreases n - i,
{
    if i >= n {
        None
    } else if p(i) {
        Some(i)
    } else {
        first_where(p, i + 1, n)
    }
}

/// The last index in `[0, n)` satisfying `p`.
pub open spec fn last_where(p: spec_fn(int) -> bool, n: int) -> Option<int>
    decreases n,
{
    if n <= 0 {
        None
    } else if p(n - 1) {
        Some(n - 1)
    } else {
        last_where(p, n - 1)
    }
}

proof fn lemma_first_where_agree(p: spec_fn(int) -> bool, q: spec_fn(int) -> bool, i: int, n: int)
    requires
        forall|j: int| i <= j < n ==> #[trigger] p(j) == q(j),
    ensures
        first_where(p, i, n) == first_where(q, i, n),
    decreases n - i,
{
    if i < n {
        lemma_first_where_agree(p, q, i + 1, n);
    }
}

proof fn lemma_last_where_agree(p: spec_fn(int) -> bool, q: spec_fn(int) -> bool, n: int)
    requires
        forall|j: int| 0 <= j < n ==> #[trigger] p(j) == q(j),
    ensures
        last_where(p, n) == last_where(q, n),
    decreases n,
{
    if n > 0 {
        lemma_last_where_agree(p, q, n - 1);
    }
}

proof fn lemma_first_where_bound(p: spec_fn(int) -> bool, i: int, n: int)
    ensures
        first_where(p, i, n) matches Some(k) ==> i <= k < n,
    decreases n - i,
{
    if i < n {
        lemma_first_where_bound(p, i + 1, n);
    }
}

proof fn lemma_last_where_bound(p: spec_fn(int) -> bool, n: int)
    ensures
        last_where(p, n) matches Some(k) ==> 0 <= k < n,
    decreases n,
{
    if n > 0 {
        lemma_last_where_bound(p, n - 1);
    }
}

/// The ranking of identifier byte spans `ids` for a point at byte `col`,
/// given which identifiers are known: the identifier the point is on
/// (bounds inclusive); else, among those starting at or before the point,
/// the last known one, else the last one; else the first known one, else
/// the first one. `None` when there is no identifier.
pub open spec fn spec_pick(ids: Seq<(int, int)>, col: int, known: Seq<bool>) -> Option<int> {
    let n = ids.len() as int;
    match first_where(|i: int| ids[i].0 <= col <= ids[i].1, 0, n) {
        Some(i) => Some(i),
        None => match last_where(|i: int| ids[i].0 <= col && known[i], n) {
            Some(i) => Some(i),
            None => match last_where(|i: int| ids[i].0 <= col, n) {
                Some(i) => Some(i),
                None => match first_where(|i: int| known[i], 0, n) {
                    Some(i) => Some(i),
                    None => if n > 0 {
                        Some(0)
                    } else {
                        None
                    },
                },
            },
        },
    }
}

/// The identifier the point is on wins outright, whatever is known; there
/// is an answer exactly when the line has an identifier, and the answer
/// indexes one.
pub proof fn lemma_pick_point_wins(ids: Seq<(int, int)>, col: int, k1: Seq<bool>, k2: Seq<bool>)
    ensures
        first_where(|i: int| ids[i].0 <= col <= ids[i].1, 0, ids.len() as int) is Some
            ==> spec_pick(ids, col, k1) == spec_pick(ids, col, k2),
        spec_pick(ids, col, k1) is None <==> ids.len() == 0,
        spec_pick(ids, col, k1) matches Some(i) ==> 0 <= i < ids.len(),
{
    let n = ids.len() as int;
    lemma_first_where_bound(|i: int| ids[i].0 <= col <= ids[i].1, 0, n);
    lemma_last_where_bound(|i: int| ids[i].0 <= col && k1[i], n);
    lemma_last_where_bound(|i: int| ids[i].0 <= col, n);
    lemma_first_where_bound(|i: int| k1[i], 0, n);
}

/// The first index in `[0, n)` of `ids` satisfying the point test.
fn first_on(ids: &[(usize, usize)], col: usize) -> (r: Option<usize>)
    ensures
        r == (match first_where(
            |i: int| ids@[i].0 <= col <= ids@[i].1,
            0,
            ids@.len() as int,
        ) {
            Some(i) => Some(i as usize),
            None => None,
        }),
{
    let ghost p = |i: int| ids@[i].0 <= col <= ids@[i].1;
    let n = ids.len();
    let mut i: usize = 0;
    while i < n
        invariant
            n == ids@.len(),
            i <= n,
            p == (|i: int| ids@[i].0 <= col <= ids@[i].1),
            first_where(p, 0, n as int) == first_where(p, i as int, n as int),
        decreases n - i,
    {
        if ids[i].0 <= col && col <= ids[i].1 {
            return Some(i);
        }
        i = i + 1;
    }
    None
}

/// The last index of `ids` starting at or before `col` (and known, when
/// `need_known`).
fn last_before(ids: &[(usize, usize)], col: usize, known: &[bool], need_known: bool) -> (r: Option<
    usize,
>)
    requires
        known@.len() == ids@.len(),
    ensures
        need_known ==> r == (match last_where(
            |i: int| ids@[i].0 <= col && known@[i],
            ids@.len() as int,
        ) {
            Some(i) => Some(i as usize),
            None => None,
        }),
        !need_known ==> r == (match last_where(|i: int| ids@[i].0 <= col, ids@.len() as int) {
            Some(i) => Some(i as usize),
            None => None,
        }),
{
    let ghost p = if need_known {
        |i: int| ids@[i].0 <= col && known@[i]
    } else {
        |i: int| ids@[i].0 <= col
    };
    let mut j: usize = ids.len();
    while j > 0
        invariant
            j <= ids@.len(),
            known@.len() == ids@.len(),
            p == (if need_known {
                |i: int| ids@[i].0 <= col && known@[i]
            } else {
                |i: int| ids@[i].0 <= col
            }),
            last_where(p, ids@.len() as int) == last_where(p, j as int),
        decreases j,
    {
        if ids[j - 1].0 <= col && (!need_known || known[j - 1]) {
            return Some(j - 1);
        }
        j = j - 1;
    }
    None
}

/// The first known index of `known`.
fn first_known(known: &[bool]) -> (r: Option<usize>)
    ensures
        r == (match first_where(|i: int| known@[i], 0, known@.len() as int) {
            Some(i) => Some(i as usize),
            None => None,
        }),
{
    let ghost p = |i: int| known@[i];
    let n = known.len();
    let mut i: usize = 0;
    while i < n
        invariant
            n == known@.len(),
            i <= n,
            p == (|i: int| known@[i]),
            first_where(p, 0, n as int) == first_where(p, i as int, n as int),
        decreases n - i,
    {
        if known[i] {
            return Some(i);
        }
        i = i + 1;
    }
    None
}

/// The views of byte spans.
pub open spec fn spans_view(ids: Seq<(usize, usize)>) -> Seq<(int, int)> {
    ids.map_values(|r: (usize, usize)| (r.0 as int, r.1 as int))
}

/// Rank identifier byte spans `ids` for a point at byte `col`, given
/// which of them are known; the index of the chosen identifier.
pub fn pick_symbol(ids: &[(usize, usize)], col: usize, known: &[bool]) -> (r: Option<usize>)
    requires
        known@.len() == ids@.len(),
    ensures
        r == (match spec_pick(spans_view(ids@), col as int, known@) {
            Some(i) => Some(i as usize),
            None => None,
        }),
        r matches Some(i) ==> i < ids@.len(),
        spec_pick(spans_view(ids@), col as int, known@) matches Some(i) ==> 0 <= i < ids@.len(),
{
    let ghost v = spans_view(ids@);
    let ghost n = ids@.len() as int;
    proof {
        assert(v.len() == ids@.len());
        lemma_first_where_agree(
            |i: int| v[i].0 <= col <= v[i].1,
            |i: int| ids@[i].0 <= col <= ids@[i].1,
            0,
            n,
        );
        lemma_last_where_agree(
            |i: int| v[i].0 <= col && known@[i],
            |i: int| ids@[i].0 <= col && known@[i],
            n,
        );
        lemma_last_where_agree(|i: int| v[i].0 <= col, |i: int| ids@[i].0 <= col, n);
        lemma_first_where_bound(|i: int| v[i].0 <= col <= v[i].1, 0, n);
        lemma_last_where_bound(|i: int| v[i].0 <= col && known@[i], n);
        lemma_last_where_bound(|i: int| v[i].0 <= col, n);
        lemma_first_where_bound(|i: int| known@[i], 0, n);
    }
    if let Some(i) = first_on(ids, col) {
        return Some(i);
    }
    if let Some(i) = last_before(ids, col, known, true) {
        return Some(i);
    }
    if let Some(i) = last_before(ids, col, known, false) {
        return Some(i);
    }
    if let Some(i) = first_known(known) {
        return Some(i);
    }
    if ids.len() > 0 {
        Some(0)
    } else {
        None
    }
}

/// The byte offset of every char boundary of `line`: `v[k]` is the
/// offset of char `k`, for `k` up to the char count.
fn byte_offsets(line: &str) -> (v: Vec<usize>)
    ensures
        v@.len() == line@.len() + 1,
        forall|k: int| 0 <= k <= line@.len() ==> #[trigger] v@[k] == byte_pos(line@, k),
{
    let ghost s = line@;
    let n = line.unicode_len();
    let total = crate::text::str_byte_len(line);
    assert(s.take(n as int) =~= s);
    let mut v: Vec<usize> = Vec::new();
    v.push(0);
    let mut k: usize = 0;
    let mut pos: usize = 0;
    while k < n
        invariant
            s == line@,
            n == s.len(),
            k <= n,
            total == byte_pos(s, n as int),
            pos == byte_pos(s, k as int),
            v@.len() == k + 1,
            forall|j: int| 0 <= j <= k ==> #[trigger] v@[j] == byte_pos(s, j),
        decreases n - k,
    {
        proof {
            lemma_byte_pos_step(s, k as int);
            crate::text::lemma_byte_pos_mono(s, k + 1, n as int);
        }
        pos = pos + char_len_utf8(line.get_char(k));
        v.push(pos);
        k = k + 1;
    }
    v
}

/// The identifier runs of `line` as char ranges.
fn scan_identifiers(line: &str) -> (r: Vec<(usize, usize)>)
    ensures
        spans_view(r@) == identifier_runs(line@),
        forall|i: int| 0 <= i < r@.len() ==> (#[trigger] r@[i]).0 <= r@[i].1 <= line@.len(),
{
    let ghost s = line@;
    let n = line.unicode_len();
    let mut runs: Vec<(usize, usize)> = Vec::new();
    let mut start: usize = 0;
    let mut k: usize = 0;
    while k < n
        invariant
            s == line@,
            n == s.len(),
            k <= n,
            start <= k,
            spans_view(runs@) + runs_from(s, k as int, start as int) == identifier_runs(s),
            forall|i: int| 0 <= i < runs@.len() ==> (#[trigger] runs@[i]).0 <= runs@[i].1 <= k,
        decreases n - k,
    {
        let c = line.get_char(k);
        if !is_word_char(c) {
            if start < k {
                runs.push((start, k));
            }
            start = k + 1;
        }
        k = k + 1;
        proof {
            assert(spans_view(runs@) + runs_from(s, k as int, start as int) =~= identifier_runs(s));
        }
    }
    if start < n {
        runs.push((start, n));
    }
    proof {
        assert(spans_view(runs@) =~= identifier_runs(s));
    }
    runs
}

/// The byte spans of the char ranges `runs` of `line`.
fn spans_of(runs: &[(usize, usize)], offs: &[usize], line: &str) -> (r: Vec<(usize, usize)>)
    requires
        offs@.len() == line@.len() + 1,
        forall|k: int| 0 <= k <= line@.len() ==> #[trigger] offs@[k] == byte_pos(line@, k),
        forall|i: int| 0 <= i < runs@.len() ==> (#[trigger] runs@[i]).0 <= runs@[i].1 <= line@.len(),
    ensures
        r@.len() == runs@.len(),
        spans_view(r@) == spans_view(runs@).map_values(
            |q: (int, int)| (byte_pos(line@, q.0) as int, byte_pos(line@, q.1) as int),
        ),
{
    let mut r: Vec<(usize, usize)> = Vec::new();
    let mut i: usize = 0;
    while i < runs.len()
        invariant
            i <= runs@.len(),
            r@.len() == i,
            offs@.len() == line@.len() + 1,
            forall|k: int| 0 <= k <= line@.len() ==> #[trigger] offs@[k] == byte_pos(line@, k),
            forall|j: int|
                0 <= j < runs@.len() ==> (#[trigger] runs@[j]).0 <= runs@[j].1 <= line@.len(),
            forall|j: int|
                0 <= j < i ==> (#[trigger] r@[j]).0 == byte_pos(line@, runs@[j].0 as int) && r@[j].1
                    == byte_pos(line@, runs@[j].1 as int),
        decreases runs@.len() - i,
    {
        let (a, b) = runs[i];
        r.push((offs[a], offs[b]));
        i = i + 1;
    }
    assert(spans_view(r@) =~= spans_view(runs@).map_values(
        |q: (int, int)| (byte_pos(line@, q.0) as int, byte_pos(line@, q.1) as int),
    ));
    r
}

/// The identifier under the point of `line` at byte column `col`, ranked
/// by [`pick_symbol`] with `is_known` telling which identifiers are
/// known; `None` when the line has no identifier.
pub fn symbol_under_point<'a>(line: &'a str, col: usize, is_known: impl Fn(&str) -> bool) -> (r:
    Option<&'a str>)
    requires
        forall|a: &str| #[trigger] is_known.requires((a,)),
    ensures
        exists|known: Seq<bool>, args: Seq<&str>|
            #![trigger spec_pick(identifier_spans(line@), col as int, known), args.len()]
            {
                &&& known.len() == identifier_runs(line@).len()
                &&& args.len() == known.len()
                &&& forall|i: int|
                    #![trigger args[i]]
                    0 <= i < known.len() ==> args[i]@ == line@.subrange(
                        identifier_runs(line@)[i].0,
                        identifier_runs(line@)[i].1,
                    ) && is_known.ensures((args[i],), known[i])
                &&& match spec_pick(identifier_spans(line@), col as int, known) {
                    Some(i) => r is Some && r.unwrap()@ == line@.subrange(
                        identifier_runs(line@)[i].0,
                        identifier_runs(line@)[i].1,
                    ),
                    None => r is None,
                }
            },
{
    let runs = scan_identifiers(line);
    let offs = byte_offsets(line);
    let spans = spans_of(runs.as_slice(), offs.as_slice(), line);
    let ghost ids = identifier_runs(line@);
    let mut known: Vec<bool> = Vec::new();
    let ghost mut args: Seq<&str> = Seq::empty();
    let mut i: usize = 0;
    while i < runs.len()
        invariant
            i <= runs@.len(),
            spans_view(runs@) == ids,
            ids == identifier_runs(line@),
            forall|j: int| 0 <= j < runs@.len() ==> (#[trigger] runs@[j]).0 <= runs@[j].1 <= line@.len(),
            forall|a: &str| #[trigger] is_known.requires((a,)),
            known@.len() == i,
            args.len() == i,
            forall|j: int|
                #![trigger args[j]]
                0 <= j < i ==> args[j]@ == line@.subrange(ids[j].0, ids[j].1)
                    && is_known.ensures((args[j],), known@[j]),
        decreases runs@.len() - i,
    {
        let (a, b) = runs[i];
        assert(ids[i as int] == (a as int, b as int));
        let text = line.substring_char(a, b);
        let kn = is_known(text);
        let ghost old_args = args;
        let ghost old_known = known@;
        known.push(kn);
        proof {
            args = args.push(text);
            assert(text@ == line@.subrange(a as int, b as int));
            assert(args[i as int] == text);
            assert(args[i as int]@ == line@.subrange(ids[i as int].0, ids[i as int].1));
            assert(is_known.ensures((text,), kn));
            assert forall|j: int| #![trigger args[j]] 0 <= j < i + 1 implies args[j]@ == line@.subrange(ids[j].0, ids[j].1)
                && is_known.ensures((args[j],), known@[j]) by {
                if j < i {
                    assert(args[j] == old_args[j]);
                    assert(known@[j] == old_known[j]);
                    assert(is_known.ensures((old_args[j],), old_known[j]));
                }
            }
        }
        i = i + 1;
    }
    let choice = pick_symbol(spans.as_slice(), col, known.as_slice());
    let r = match choice {
        Some(j) => {
            let (a, b) = runs[j];
            assert(ids[j as int] == (a as int, b as int));
            Some(line.substring_char(a, b))
        },
        None => None,
    };
    proof {
        assert(spans_view(spans@) =~= identifier_spans(line@));
        assert(args.len() == known@.len());
        assert(match spec_pick(identifier_spans(line@), col as int, known@) {
            Some(i) => r is Some && r.unwrap()@ == line@.subrange(
                identifier_runs(line@)[i].0,
                identifier_runs(line@)[i].1,
            ),
            None => r is None,
        });
    }
    r
}

} // verus!
