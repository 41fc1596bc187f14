//! The in-memory symbol index: per-file outlines, the name-keyed map for
//! cross-file definition lookup, and the symbol total.

use vstd::prelude::*;
use crate::nav::index::order::{
    key_lt, keys_of, lemma_ascending_keys, lemma_key_order, lemma_ascending_unique, lemma_map_multiset, sort_by_key, sorted_by_key, KeyView,
};
use crate::nav::index::tables::{
    add_file_fields, add_file_traits, drop_file_fields, drop_file_traits, expected_field, expected_traits,
    field_entry, field_map_wf, trait_has, trait_list, trait_map_wf, trait_set, FieldMap, TraitMap,
};
use crate::nav::index::order::{dedup_adjacent, lemma_filter_all, lemma_filter_map, lemma_filter_none, lemma_filter_twice, with_key, Keyed};
use crate::nav::index::tables::{field_locs, impls_view, ti_view};
use crate::nav::index::{
    lemma_field_key_is_item, tables_empty, FieldLocation, Location, RustTables, Symbol, SymbolView, TablesView, TraitImpl, TraitImplLocation,
};
use crate::nav::keymap::KeyMap;

verus! {

/// The views of an outline's definitions.
pub open spec fn outline_view(v: Seq<Symbol>) -> Seq<SymbolView> {
    v.map_values(|s: Symbol| s@)
}

/// The definitions of `o` named `n`, in order.
pub open spec fn named(o: Seq<SymbolView>, n: Seq<char>) -> Seq<SymbolView> {
    o.filter(|s: SymbolView| s.name == n)
}

/// The number of definitions held by the outlines of `m`.
pub open spec fn total_len<X>(m: Map<Seq<char>, Seq<X>>) -> nat
    decreases m.dom().len(),
{
    if m.dom().finite() && m.dom().len() > 0 {
        let k = m.dom().choose();
        proof {
            vstd::set::axiom_set_choose_len(m.dom());
        }
        total_len(m.remove(k)) + m[k].len()
    } else {
        0
    }
}

/// The outlines of `m` holding a definition named `n`.
pub open spec fn files_naming(m: Map<Seq<char>, Seq<SymbolView>>, n: Seq<char>) -> Set<Seq<char>> {
    Set::new(|f: Seq<char>| m.contains_key(f) && named(m[f], n).len() > 0)
}

/// How often the outline of `f` in `m` holds `s`.
pub open spec fn held(m: Map<Seq<char>, Seq<SymbolView>>, f: Seq<char>, s: SymbolView) -> nat {
    if m.contains_key(f) {
        m[f].to_multiset().count(s)
    } else {
        0
    }
}

/// How often the outline of `f` in `m` holds `s` among its definitions
/// named `n`.
pub open spec fn held_named(m: Map<Seq<char>, Seq<SymbolView>>, n: Seq<char>, f: Seq<char>, s: SymbolView) -> nat {
    if m.contains_key(f) {
        named(m[f], n).to_multiset().count(s)
    } else {
        0
    }
}

/// The views of a list of locations.
pub open spec fn locations_view(v: Seq<Location>) -> Seq<(Seq<char>, SymbolView)> {
    v.map_values(|l: Location| l@)
}

pub proof fn lemma_total_len_remove<X>(m: Map<Seq<char>, Seq<X>>, k: Seq<char>)
    requires
        m.dom().finite(),
        m.contains_key(k),
    ensures
        total_len(m) == total_len(m.remove(k)) + m[k].len(),
    decreases m.dom().len(),
{
    vstd::set::axiom_set_choose_len(m.dom());
    let c = m.dom().choose();
    if c != k {
        lemma_total_len_remove(m.remove(c), k);
        lemma_total_len_remove(m.remove(k), c);
        assert(m.remove(c).remove(k) =~= m.remove(k).remove(c));
    }
}

proof fn lemma_named_count(o: Seq<SymbolView>, n: Seq<char>, s: SymbolView)
    ensures
        named(o, n).to_multiset().count(s) == (if s.name == n {
            o.to_multiset().count(s)
        } else {
            0
        }),
    decreases o.len(),
{
    broadcast use vstd::seq_lib::group_to_multiset_ensures;

    reveal(Seq::filter);
    if o.len() > 0 {
        lemma_named_count(o.drop_last(), n, s);
        assert(o.drop_last().push(o.last()) =~= o);
    }
}

/// The definitions of a name are exactly the held locations of symbols
/// with that name, and a file counts towards a name's definition count
/// exactly when it holds a symbol of that name: with the contracts of
/// `definitions_of`, `all_locations` and `definition_count`, the name
/// lookups agree with the stored outlines.
pub proof fn lemma_definitions_are_named_locations(
    m: Map<Seq<char>, Seq<SymbolView>>,
    n: Seq<char>,
    f: Seq<char>,
    s: SymbolView,
)
    ensures
        held_named(m, n, f, s) == (if s.name == n {
            held(m, f, s)
        } else {
            0
        }),
        files_naming(m, n).contains(f) <==> exists|t: SymbolView| t.name == n && #[trigger] held(m, f, t) > 0,
{
    broadcast use vstd::seq_lib::group_to_multiset_ensures;

    if m.contains_key(f) {
        lemma_named_count(m[f], n, s);
        if named(m[f], n).len() > 0 {
            let t = named(m[f], n)[0];
            vstd::seq::Seq::lemma_filter_pred(m[f], |x: SymbolView| x.name == n, 0);
            assert(named(m[f], n).contains(t));
            lemma_named_count(m[f], n, t);
            assert(held(m, f, t) > 0);
        }
        if exists|t: SymbolView| t.name == n && #[trigger] held(m, f, t) > 0 {
            let t = choose|t: SymbolView| t.name == n && #[trigger] held(m, f, t) > 0;
            lemma_named_count(m[f], n, t);
            assert(named(m[f], n).to_multiset().count(t) > 0);
            assert(named(m[f], n).contains(t));
        }
    }
}

pub proof fn lemma_total_len_empty<X>(m: Map<Seq<char>, Seq<X>>)
    requires
        m.dom().finite(),
        m.dom().len() == 0,
    ensures
        total_len(m) == 0,
{
}

/// The index as plain values: each file's outline (files with at least
/// one definition only) and each file's Rust tables (files whose tables
/// hold something only).
pub struct SymbolIndexView {
    pub files: Map<Seq<char>, Seq<SymbolView>>,
    pub tables: Map<Seq<char>, TablesView>,
}

/// The in-memory symbol index: per-file outlines plus a name → (file →
/// definitions) map for cross-file lookup, the total definition count, and
/// the per-file Rust tables with their struct-field and trait maps.
#[derive(Clone, Debug)]
pub struct SymbolIndex {
    files: KeyMap<Vec<Symbol>>,
    by_name: KeyMap<KeyMap<Vec<Symbol>>>,
    total: usize,
    rust_tables: KeyMap<RustTables>,
    rust_fields: FieldMap,
    rust_traits: TraitMap,
}

impl View for SymbolIndex {
    type V = SymbolIndexView;

    closed spec fn view(&self) -> SymbolIndexView {
        SymbolIndexView {
            files: self.files@.map_values(|v: Vec<Symbol>| outline_view(v@)),
            tables: self.rust_tables@.map_values(|t: RustTables| t@),
        }
    }
}

/// The name map's entry for `(n, f)`: the definitions named `n` that it
/// records for file `f`.
pub open spec fn name_entry(bn: KeyMap<KeyMap<Vec<Symbol>>>, n: Seq<char>, f: Seq<char>) -> Option<Seq<SymbolView>> {
    if bn@.contains_key(n) && bn@[n]@.contains_key(f) {
        Some(outline_view(bn@[n]@[f]@))
    } else {
        None
    }
}

/// What the name map must record for `(n, f)` given the outlines `m`.
pub open spec fn expected_entry(m: Map<Seq<char>, Seq<SymbolView>>, n: Seq<char>, f: Seq<char>) -> Option<Seq<SymbolView>> {
    if m.contains_key(f) && named(m[f], n).len() > 0 {
        Some(named(m[f], n))
    } else {
        None
    }
}

/// The names of an outline's definitions, in order.
pub open spec fn names_of(v: Seq<Symbol>) -> Seq<Seq<char>> {
    v.map_values(|s: Symbol| s.name@)
}

proof fn lemma_named_step(v: Seq<Symbol>, i: int, n: Seq<char>)
    requires
        0 <= i < v.len(),
    ensures
        named(outline_view(v.take(i + 1)), n) == (if v[i].name@ == n {
            named(outline_view(v.take(i)), n).push(v[i]@)
        } else {
            named(outline_view(v.take(i)), n)
        }),
{
    reveal(Seq::filter);
    let a = outline_view(v.take(i + 1));
    assert(a.drop_last() =~= outline_view(v.take(i)));
    assert(a.last() == v[i]@);
    assert(a.len() > 0);
    assert(named(a, n) == (if a.last().name == n {
        named(a.drop_last(), n).push(a.last())
    } else {
        named(a.drop_last(), n)
    }));
}

proof fn lemma_names_step(v: Seq<Symbol>, i: int, n: Seq<char>)
    requires
        0 <= i < v.len(),
    ensures
        names_of(v.take(i + 1)).contains(n) == (names_of(v.take(i)).contains(n) || v[i].name@ == n),
{
    broadcast use vstd::seq_lib::lemma_seq_contains_after_push;

    assert(names_of(v.take(i + 1)) =~= names_of(v.take(i)).push(v[i].name@));
}

proof fn lemma_named_has_name(v: Seq<Symbol>, n: Seq<char>)
    requires
        named(outline_view(v), n).len() > 0,
    ensures
        names_of(v).contains(n),
    decreases v.len(),
{
    reveal(Seq::filter);
    let a = outline_view(v);
    if v.len() > 0 {
        let q = v.drop_last();
        assert(a.drop_last() =~= outline_view(q));
        assert(names_of(v) =~= names_of(q).push(v.last().name@));
        if v.last().name@ == n {
            assert(names_of(v)[v.len() - 1] == n);
        } else {
            assert(named(a, n) == named(a.drop_last(), n));
            lemma_named_has_name(q, n);
            let j = choose|j: int| 0 <= j < names_of(q).len() && names_of(q)[j] == n;
            assert(names_of(v)[j] == n);
        }
    }
}

/// Whether two outlines hold the same definitions in the same order.
pub fn outlines_same(a: &[Symbol], b: &[Symbol]) -> (r: bool)
    ensures
        r == (outline_view(a@) == outline_view(b@)),
{
    if a.len() != b.len() {
        proof {
            assert(outline_view(a@).len() != outline_view(b@).len());
        }
        return false;
    }
    let mut i: usize = 0;
    while i < a.len()
        invariant
            a@.len() == b@.len(),
            i <= a@.len(),
            forall|j: int| 0 <= j < i ==> a@[j]@ == b@[j]@,
        decreases a@.len() - i,
    {
        if !a[i].same_as(&b[i]) {
            proof {
                assert(outline_view(a@)[i as int] != outline_view(b@)[i as int]);
            }
            return false;
        }
        i = i + 1;
    }
    assert(outline_view(a@) =~= outline_view(b@));
    true
}

/// The sort key of a location: its file, its definition's line and name.
pub open spec fn loc_key(l: (Seq<char>, SymbolView)) -> KeyView {
    (l.0, l.1.line as int, l.1.name)
}

/// Whether a location has sort key `k`.
pub open spec fn key_is(k: KeyView) -> spec_fn((Seq<char>, SymbolView)) -> bool {
    |l: (Seq<char>, SymbolView)| loc_key(l) == k
}

/// The definitions of outline `o` as locations in file `f`, in order.
pub open spec fn at_file(f: Seq<char>, o: Seq<SymbolView>) -> Seq<(Seq<char>, SymbolView)> {
    o.map_values(|s: SymbolView| (f, s))
}

/// The locations with sort key `k` among the outlines `m`, in outline
/// order.
pub open spec fn key_group(m: Map<Seq<char>, Seq<SymbolView>>, k: KeyView) -> Seq<(Seq<char>, SymbolView)> {
    if m.contains_key(k.0) {
        at_file(k.0, m[k.0]).filter(key_is(k))
    } else {
        Seq::empty()
    }
}

proof fn lemma_at_file_other(f: Seq<char>, o: Seq<SymbolView>, k: KeyView)
    requires
        f != k.0,
    ensures
        at_file(f, o).filter(key_is(k)) == Seq::<(Seq<char>, SymbolView)>::empty(),
{
    lemma_filter_none(at_file(f, o), key_is(k));
}

/// Whether locations are in ascending order of their sort keys.
pub open spec fn views_sorted(s: Seq<(Seq<char>, SymbolView)>) -> bool {
    forall|i: int, j: int| 0 <= i < j < s.len() ==> !key_lt(loc_key(#[trigger] s[j]), loc_key(#[trigger] s[i]))
}

/// A sorted list of locations has sorted views.
proof fn lemma_locations_sorted(v: Seq<Location>)
    requires
        sorted_by_key(v),
    ensures
        views_sorted(locations_view(v)),
{
    assert forall|i: int, j: int| 0 <= i < j < locations_view(v).len() implies !key_lt(
        loc_key(#[trigger] locations_view(v)[j]),
        loc_key(#[trigger] locations_view(v)[i]),
    ) by {
        assert(loc_key(locations_view(v)[j]) == v[j].sort_key());
        assert(loc_key(locations_view(v)[i]) == v[i].sort_key());
    }
}

/// Keeping some of a sorted list of locations keeps it sorted.
proof fn lemma_filter_sorted(s: Seq<(Seq<char>, SymbolView)>, p: spec_fn((Seq<char>, SymbolView)) -> bool)
    requires
        views_sorted(s),
    ensures
        views_sorted(s.filter(p)),
    decreases s.len(),
{
    reveal(Seq::filter);
    if s.len() > 0 {
        let d = s.drop_last();
        assert(views_sorted(d)) by {
            assert forall|i: int, j: int| 0 <= i < j < d.len() implies !key_lt(loc_key(#[trigger] d[j]), loc_key(#[trigger] d[i])) by {
                assert(d[i] == s[i] && d[j] == s[j]);
            }
        }
        lemma_filter_sorted(d, p);
        let x = s.last();
        if p(x) {
            let f = d.filter(p);
            assert forall|i: int, j: int| 0 <= i < j < f.push(x).len() implies !key_lt(
                loc_key(#[trigger] f.push(x)[j]),
                loc_key(#[trigger] f.push(x)[i]),
            ) by {
                if j == f.len() {
                    assert(f.contains(f[i]));
                    d.lemma_filter_contains_rev(p, f[i]);
                    let a = choose|a: int| 0 <= a < d.len() && d[a] == f[i];
                    assert(s[a] == f[i] && s[s.len() - 1] == x);
                } else {
                    assert(f.push(x)[j] == f[j] && f.push(x)[i] == f[i]);
                }
            }
        }
    }
}

/// Two sorted lists of locations with the same locations under every
/// sort key, in the same order, are the same list.
proof fn lemma_groups_determine(a: Seq<(Seq<char>, SymbolView)>, b: Seq<(Seq<char>, SymbolView)>)
    requires
        views_sorted(a),
        views_sorted(b),
        forall|k: KeyView| #[trigger] a.filter(key_is(k)) == b.filter(key_is(k)),
    ensures
        a == b,
    decreases a.len() + b.len(),
{
    if a.len() == 0 && b.len() == 0 {
        assert(a =~= b);
    } else if a.len() == 0 {
        let k = loc_key(b[0]);
        b.lemma_filter_contains(key_is(k), 0);
        lemma_filter_none(a, key_is(k));
        assert(a.filter(key_is(k)) == b.filter(key_is(k)));
        assert(false);
    } else if b.len() == 0 {
        let k = loc_key(a[0]);
        a.lemma_filter_contains(key_is(k), 0);
        lemma_filter_none(b, key_is(k));
        assert(a.filter(key_is(k)) == b.filter(key_is(k)));
        assert(false);
    } else {
        let ka = loc_key(a[0]);
        let kb = loc_key(b[0]);
        a.lemma_filter_contains(key_is(ka), 0);
        assert(a.filter(key_is(ka)) == b.filter(key_is(ka)));
        b.lemma_filter_contains_rev(key_is(ka), a[0]);
        let j = choose|j: int| 0 <= j < b.len() && b[j] == a[0];
        b.lemma_filter_contains(key_is(kb), 0);
        assert(a.filter(key_is(kb)) == b.filter(key_is(kb)));
        a.lemma_filter_contains_rev(key_is(kb), b[0]);
        let i = choose|i: int| 0 <= i < a.len() && a[i] == b[0];
        lemma_key_order(ka, kb, ka);
        if i > 0 {
            assert(!key_lt(loc_key(a[i]), loc_key(a[0])));
        }
        if j > 0 {
            assert(!key_lt(loc_key(b[j]), loc_key(b[0])));
        }
        assert(ka == kb);
        let a1 = a.drop_first();
        let b1 = b.drop_first();
        assert(a =~= seq![a[0]] + a1);
        assert(b =~= seq![b[0]] + b1);
        assert forall|k: KeyView| #[trigger] a1.filter(key_is(k)) == b1.filter(key_is(k)) by {
            a1.lemma_filter_prepend(a[0], key_is(k));
            b1.lemma_filter_prepend(b[0], key_is(k));
            assert(a.filter(key_is(k)) == b.filter(key_is(k)));
            if k == ka {
                assert((seq![a[0]] + a1.filter(key_is(k)))[0] == a[0]);
                assert((seq![a[0]] + a1.filter(key_is(k))).drop_first() =~= a1.filter(key_is(k)));
                assert((seq![b[0]] + b1.filter(key_is(k))).drop_first() =~= b1.filter(key_is(k)));
            } else {
                assert(seq![a[0]].filter(key_is(k)) =~= Seq::<(Seq<char>, SymbolView)>::empty()) by {
                    reveal(Seq::filter);
                }
            }
        }
        a1.lemma_filter_prepend(a[0], key_is(ka));
        b1.lemma_filter_prepend(b[0], key_is(ka));
        assert((seq![a[0]] + a1.filter(key_is(ka)))[0] == a[0]);
        assert((seq![b[0]] + b1.filter(key_is(ka)))[0] == b[0]);
        assert(views_sorted(a1)) by {
            assert forall|x: int, y: int| 0 <= x < y < a1.len() implies !key_lt(loc_key(#[trigger] a1[y]), loc_key(#[trigger] a1[x])) by {
                assert(a1[x] == a[x + 1] && a1[y] == a[y + 1]);
            }
        }
        assert(views_sorted(b1)) by {
            assert forall|x: int, y: int| 0 <= x < y < b1.len() implies !key_lt(loc_key(#[trigger] b1[y]), loc_key(#[trigger] b1[x])) by {
                assert(b1[x] == b[x + 1] && b1[y] == b[y + 1]);
            }
        }
        lemma_groups_determine(a1, b1);
    }
}

/// A stable sort keeps each key's locations in order.
proof fn lemma_sorted_groups(r: Seq<Location>, v: Seq<Location>, k: KeyView)
    requires
        r.filter(with_key::<Location>(k)) == v.filter(with_key::<Location>(k)),
    ensures
        locations_view(r).filter(key_is(k)) == locations_view(v).filter(key_is(k)),
{
    let f = |l: Location| l@;
    assert forall|x: Location| #[trigger] with_key::<Location>(k)(x) == key_is(k)(f(x)) by {}
    lemma_filter_map(r, f, with_key::<Location>(k), key_is(k));
    lemma_filter_map(v, f, with_key::<Location>(k), key_is(k));
    assert(locations_view(r) == r.map_values(f));
    assert(locations_view(v) == v.map_values(f));
}

/// Among the definitions named `n` of an outline, those with sort key `k`
/// are all its definitions with that key when `k` names `n`, and none
/// otherwise.
proof fn lemma_named_group(f: Seq<char>, o: Seq<SymbolView>, n: Seq<char>, k: KeyView)
    ensures
        at_file(f, named(o, n)).filter(key_is(k)) == (if k.2 == n {
            at_file(f, o).filter(key_is(k))
        } else {
            Seq::<(Seq<char>, SymbolView)>::empty()
        }),
{
    let pn = |s: SymbolView| s.name == n;
    let qn = |l: (Seq<char>, SymbolView)| l.1.name == n;
    let g = |s: SymbolView| (f, s);
    assert forall|s: SymbolView| #[trigger] pn(s) == qn(g(s)) by {}
    lemma_filter_map(o, g, pn, qn);
    assert(at_file(f, named(o, n)) == o.filter(pn).map_values(g));
    assert(at_file(f, o) == o.map_values(g));
    let a = at_file(f, o);
    if k.2 == n {
        assert forall|x: (Seq<char>, SymbolView)| #[trigger] key_is(k)(x) == (qn(x) && key_is(k)(x)) by {}
        lemma_filter_twice(a, qn, key_is(k), key_is(k));
    } else {
        assert forall|i: int| 0 <= i < a.filter(qn).len() implies !key_is(k)(#[trigger] a.filter(qn)[i]) by {
            a.lemma_filter_pred(qn, i);
        }
        lemma_filter_none(a.filter(qn), key_is(k));
    }
}

/// How often `v` holds a location with file `f` and definition `s`.
pub open spec fn count_at(v: Seq<Location>, f: Seq<char>, s: SymbolView) -> nat {
    locations_view(v).to_multiset().count((f, s))
}

proof fn lemma_count_push(v: Seq<Location>, x: Location, f: Seq<char>, s: SymbolView)
    ensures
        count_at(v.push(x), f, s) == count_at(v, f, s) + (if x@ == (f, s) {
            1nat
        } else {
            0nat
        }),
{
    broadcast use vstd::seq_lib::group_to_multiset_ensures;

    assert(locations_view(v.push(x)) =~= locations_view(v).push(x@));
}

proof fn lemma_outline_count_step(o: Seq<Symbol>, j: int, s: SymbolView)
    requires
        0 <= j < o.len(),
    ensures
        outline_view(o.take(j + 1)).to_multiset().count(s) == outline_view(o.take(j)).to_multiset().count(s)
            + (if o[j]@ == s {
            1nat
        } else {
            0nat
        }),
{
    broadcast use vstd::seq_lib::group_to_multiset_ensures;

    assert(outline_view(o.take(j + 1)) =~= outline_view(o.take(j)).push(o[j]@));
}

/// Every definition of every outline of `m`, with its file, in storage
/// order.
fn collect_locations(m: &KeyMap<Vec<Symbol>>) -> (r: Vec<Location>)
    requires
        m.wf(),
    ensures
        forall|k: KeyView| #[trigger] locations_view(r@).filter(key_is(k)) == (if m@.contains_key(k.0) {
            at_file(k.0, outline_view(m@[k.0]@)).filter(key_is(k))
        } else {
            Seq::empty()
        }),
        forall|f: Seq<char>, s: SymbolView|
            #[trigger] count_at(r@, f, s) == (if m@.contains_key(f) {
                outline_view(m@[f]@).to_multiset().count(s)
            } else {
                0
            }),
{
    broadcast use vstd::seq_lib::group_to_multiset_ensures;

    proof {
        m.lemma_entries();
    }
    let ghost es = m.entries_seq();
    let mut out: Vec<Location> = Vec::new();
    let mut i: usize = 0;
    let n = m.len();
    while i < n
        invariant
            n == es.len(),
            es == m.entries_seq(),
            m.wf(),
            crate::nav::keymap::keys_of(es).no_duplicates(),
            forall|k: int| #![trigger es[k]] 0 <= k < es.len() ==> m@.contains_key(es[k].0@) && m@[es[k].0@] == es[k].1,
            i <= n,
            forall|f: Seq<char>, s: SymbolView|
                #[trigger] count_at(out@, f, s) == (if crate::nav::keymap::keys_of(es.take(i as int)).contains(f) {
                    outline_view(m@[f]@).to_multiset().count(s)
                } else {
                    0
                }),
            forall|k: KeyView| #[trigger] locations_view(out@).filter(key_is(k)) == (if crate::nav::keymap::keys_of(es.take(i as int)).contains(k.0) {
                at_file(k.0, outline_view(m@[k.0]@)).filter(key_is(k))
            } else {
                Seq::empty()
            }),
        decreases n - i,
    {
        let e = m.entry_at(i);
        let ghost base = out@;
        let ghost key = e.0@;
        let mut j: usize = 0;
        proof {
            assert(!crate::nav::keymap::keys_of(es.take(i as int)).contains(key)) by {
                if crate::nav::keymap::keys_of(es.take(i as int)).contains(key) {
                    let a = choose|a: int| 0 <= a < crate::nav::keymap::keys_of(es.take(i as int)).len() && crate::nav::keymap::keys_of(es.take(i as int))[a] == key;
                    assert(crate::nav::keymap::keys_of(es)[a] == crate::nav::keymap::keys_of(es)[i as int]);
                }
            }
            assert(outline_view(e.1@.take(0)) =~= Seq::<SymbolView>::empty());
            assert forall|k: KeyView| #[trigger] locations_view(out@).filter(key_is(k)) == locations_view(base).filter(key_is(k))
                + at_file(key, outline_view(e.1@.take(0))).filter(key_is(k)) by {
                lemma_filter_none(at_file(key, outline_view(e.1@.take(0))), key_is(k));
                assert(locations_view(base).filter(key_is(k)) + Seq::<(Seq<char>, SymbolView)>::empty() =~= locations_view(base).filter(key_is(k)));
            }
            assert forall|s: SymbolView| Seq::<SymbolView>::empty().to_multiset().count(s) == 0 by {
                vstd::seq_lib::to_multiset_len(Seq::<SymbolView>::empty());
                vstd::multiset::axiom_count_le_len(Seq::<SymbolView>::empty().to_multiset(), s);
            }
        }
        while j < e.1.len()
            invariant
                j <= e.1@.len(),
                e == es[i as int],
                key == e.0@,
                forall|f: Seq<char>, s: SymbolView|
                    #[trigger] count_at(out@, f, s) == count_at(base, f, s) + (if f == key {
                        outline_view(e.1@.take(j as int)).to_multiset().count(s)
                    } else {
                        0
                    }),
                forall|k: KeyView| #[trigger] locations_view(out@).filter(key_is(k)) == locations_view(base).filter(key_is(k))
                    + at_file(key, outline_view(e.1@.take(j as int))).filter(key_is(k)),
            decreases e.1@.len() - j,
        {
            let loc = Location { file: e.0.clone(), symbol: e.1[j].duplicate() };
            let ghost before = out@;
            out.push(loc);
            proof {
                assert forall|f: Seq<char>, s: SymbolView| #[trigger] count_at(out@, f, s) == count_at(base, f, s) + (if f == key {
                    outline_view(e.1@.take(j + 1)).to_multiset().count(s)
                } else {
                    0
                }) by {
                    lemma_count_push(before, loc, f, s);
                    lemma_outline_count_step(e.1@, j as int, s);
                    assert(count_at(before, f, s) == count_at(base, f, s) + (if f == key {
                        outline_view(e.1@.take(j as int)).to_multiset().count(s)
                    } else {
                        0
                    }));
                }
                let ghost lb = locations_view(before);
                let ghost ab = at_file(key, outline_view(e.1@.take(j as int)));
                assert(locations_view(out@) =~= lb.push(loc@));
                assert(at_file(key, outline_view(e.1@.take(j + 1))) =~= ab.push(loc@));
                assert forall|k: KeyView| #[trigger] locations_view(out@).filter(key_is(k)) == locations_view(base).filter(key_is(k))
                    + at_file(key, outline_view(e.1@.take(j + 1))).filter(key_is(k)) by {
                    lb.lemma_filter_push(loc@, key_is(k));
                    ab.lemma_filter_push(loc@, key_is(k));
                    assert(lb.filter(key_is(k)) == locations_view(base).filter(key_is(k)) + ab.filter(key_is(k)));
                    assert((locations_view(base).filter(key_is(k)) + ab.filter(key_is(k))).push(loc@) =~= locations_view(base).filter(key_is(k))
                        + ab.filter(key_is(k)).push(loc@));
                }
            }
            j = j + 1;
        }
        proof {
            assert(e.1@.take(e.1@.len() as int) =~= e.1@);
            assert(crate::nav::keymap::keys_of(es.take(i + 1)) =~= crate::nav::keymap::keys_of(es.take(i as int)).push(key));
            assert forall|k: KeyView| #[trigger] locations_view(out@).filter(key_is(k)) == (if crate::nav::keymap::keys_of(es.take(i + 1)).contains(k.0) {
                at_file(k.0, outline_view(m@[k.0]@)).filter(key_is(k))
            } else {
                Seq::empty()
            }) by {
                broadcast use vstd::seq_lib::lemma_seq_contains_after_push;

                assert(m@[es[i as int].0@] == es[i as int].1);
                let g = at_file(key, outline_view(e.1@)).filter(key_is(k));
                let bg = locations_view(base).filter(key_is(k));
                if k.0 == key {
                    assert(bg == Seq::<(Seq<char>, SymbolView)>::empty());
                    assert(bg + g =~= g);
                } else {
                    lemma_at_file_other(key, outline_view(e.1@), k);
                    assert(bg + g =~= bg);
                }
            }
            assert forall|f: Seq<char>, s: SymbolView| #[trigger] count_at(out@, f, s) == (if crate::nav::keymap::keys_of(es.take(i + 1)).contains(f) {
                outline_view(m@[f]@).to_multiset().count(s)
            } else {
                0
            }) by {
                broadcast use vstd::seq_lib::lemma_seq_contains_after_push;

                assert(count_at(base, f, s) == (if crate::nav::keymap::keys_of(es.take(i as int)).contains(f) {
                    outline_view(m@[f]@).to_multiset().count(s)
                } else {
                    0
                }));
                assert(m@[es[i as int].0@] == es[i as int].1);
            }
        }
        i = i + 1;
    }
    proof {
        assert(es.take(n as int) =~= es);
        assert forall|f: Seq<char>, s: SymbolView| #[trigger] count_at(out@, f, s) == (if m@.contains_key(f) {
            outline_view(m@[f]@).to_multiset().count(s)
        } else {
            0
        }) by {
            crate::nav::keymap::lemma_map_of_dom(es);
        }
        assert forall|k: KeyView| #[trigger] locations_view(out@).filter(key_is(k)) == (if m@.contains_key(k.0) {
            at_file(k.0, outline_view(m@[k.0]@)).filter(key_is(k))
        } else {
            Seq::empty()
        }) by {
            crate::nav::keymap::lemma_map_of_dom(es);
        }
    }
    out
}

/// The name map's inner maps are well formed.
pub open spec fn names_wf(bn: KeyMap<KeyMap<Vec<Symbol>>>) -> bool {
    &&& bn.wf()
    &&& forall|n: Seq<char>| #[trigger] bn@.contains_key(n) ==> bn@[n].wf()
}

/// Drop file `path` from the name map's entries of each name in `gone`.
fn drop_file_names(bn: &mut KeyMap<KeyMap<Vec<Symbol>>>, path: &str, gone: &[Symbol])
    requires
        names_wf(*old(bn)),
        forall|n: Seq<char>|
            #[trigger] name_entry(*old(bn), n, path@) is Some ==> names_of(gone@).contains(n),
    ensures
        names_wf(*final(bn)),
        forall|n: Seq<char>, f: Seq<char>|
            #[trigger] name_entry(*final(bn), n, f) == (if f == path@ {
                None
            } else {
                name_entry(*old(bn), n, f)
            }),
{
    let ghost bn0 = *bn;
    let mut i: usize = 0;
    while i < gone.len()
        invariant
            i <= gone@.len(),
            names_wf(*bn),
            forall|n: Seq<char>, f: Seq<char>|
                #[trigger] name_entry(*bn, n, f) == (if f == path@ && names_of(gone@.take(i as int)).contains(n) {
                    None
                } else {
                    name_entry(bn0, n, f)
                }),
        decreases gone@.len() - i,
    {
        let name = &gone[i].name;
        let ghost before = *bn;
        proof {
            assert forall|n: Seq<char>| #![trigger names_of(gone@.take(i + 1)).contains(n)]
                names_of(gone@.take(i + 1)).contains(n) == (names_of(gone@.take(i as int)).contains(n) || gone@[i as int].name@ == n) by {
                lemma_names_step(gone@, i as int, n);
            }
        }
        match bn.remove(name.as_str()) {
            Some(mut m) => {
                let ghost m0 = m@;
                m.remove(path);
                let ghost m1 = m@;
                let e = m.is_empty();
                if !e {
                    bn.insert(name.clone(), m);
                }
                proof {
                    assert(m0 == before@[name@]@);
                    assert forall|n: Seq<char>, f: Seq<char>| #[trigger] name_entry(*bn, n, f) == (if f == path@
                        && names_of(gone@.take(i + 1)).contains(n) {
                        None
                    } else {
                        name_entry(bn0, n, f)
                    }) by {
                        assert(name_entry(before, n, f) == (if f == path@ && names_of(gone@.take(i as int)).contains(n) {
                            None
                        } else {
                            name_entry(bn0, n, f)
                        }));
                        if n == name@ && f != path@ {
                            assert(m1.contains_key(f) == m0.contains_key(f));
                            if e {
                                assert(!m1.contains_key(f));
                            } else {
                                assert(m1[f] == m0[f]);
                            }
                        }
                    }
                }
            },
            None => {
                proof {
                    assert forall|n: Seq<char>, f: Seq<char>| #[trigger] name_entry(*bn, n, f) == (if f == path@
                        && names_of(gone@.take(i + 1)).contains(n) {
                        None
                    } else {
                        name_entry(bn0, n, f)
                    }) by {
                        assert(name_entry(before, n, f) == (if f == path@ && names_of(gone@.take(i as int)).contains(n) {
                            None
                        } else {
                            name_entry(bn0, n, f)
                        }));
                    }
                }
            },
        }
        i = i + 1;
    }
    proof {
        assert(gone@.take(gone@.len() as int) =~= gone@);
        assert forall|n: Seq<char>, f: Seq<char>| #[trigger] name_entry(*bn, n, f) == (if f == path@ {
            None
        } else {
            name_entry(bn0, n, f)
        }) by {
            if f == path@ && !names_of(gone@).contains(n) {
                assert(!(name_entry(bn0, n, path@) is Some));
            }
        }
    }
}

/// Record the definitions of `syms` under file `path` in the name map.
fn add_file_names(bn: &mut KeyMap<KeyMap<Vec<Symbol>>>, path: &str, syms: &[Symbol])
    requires
        names_wf(*old(bn)),
        forall|n: Seq<char>| #[trigger] name_entry(*old(bn), n, path@) is None,
    ensures
        names_wf(*final(bn)),
        forall|n: Seq<char>, f: Seq<char>|
            #[trigger] name_entry(*final(bn), n, f) == (if f == path@ {
                if named(outline_view(syms@), n).len() > 0 {
                    Some(named(outline_view(syms@), n))
                } else {
                    None
                }
            } else {
                name_entry(*old(bn), n, f)
            }),
{
    let ghost bn0 = *bn;
    let mut i: usize = 0;
    proof {
        assert forall|n: Seq<char>| named(outline_view(syms@.take(0)), n).len() == 0 by {
            assert(outline_view(syms@.take(0)) =~= Seq::<SymbolView>::empty());
        }
    }
    while i < syms.len()
        invariant
            i <= syms@.len(),
            names_wf(*bn),
            forall|n: Seq<char>, f: Seq<char>|
                #[trigger] name_entry(*bn, n, f) == (if f == path@ {
                    if named(outline_view(syms@.take(i as int)), n).len() > 0 {
                        Some(named(outline_view(syms@.take(i as int)), n))
                    } else {
                        None
                    }
                } else {
                    name_entry(bn0, n, f)
                }),
        decreases syms@.len() - i,
    {
        let s = &syms[i];
        let ghost before = *bn;
        let mut m = match bn.remove(s.name.as_str()) {
            Some(m) => m,
            None => KeyMap::new(),
        };
        let mut v = match m.remove(path) {
            Some(v) => v,
            None => Vec::new(),
        };
        let ghost v0 = v@;
        proof {
            assert(name_entry(before, s.name@, path@) == (if named(outline_view(syms@.take(i as int)), s.name@).len() > 0 {
                Some(named(outline_view(syms@.take(i as int)), s.name@))
            } else {
                None
            }));
            if !(name_entry(before, s.name@, path@) is Some) {
                assert(outline_view(v0) =~= named(outline_view(syms@.take(i as int)), s.name@));
            }
            assert(outline_view(v0) == named(outline_view(syms@.take(i as int)), s.name@));
        }
        v.push(s.duplicate());
        m.insert(path.to_owned(), v);
        bn.insert(s.name.clone(), m);
        proof {
            lemma_named_step(syms@, i as int, s.name@);
            assert(outline_view(v0.push(syms@[i as int])) =~= outline_view(v0).push(syms@[i as int]@));
            assert forall|n: Seq<char>, f: Seq<char>| #[trigger] name_entry(*bn, n, f) == (if f == path@ {
                if named(outline_view(syms@.take(i + 1)), n).len() > 0 {
                    Some(named(outline_view(syms@.take(i + 1)), n))
                } else {
                    None
                }
            } else {
                name_entry(bn0, n, f)
            }) by {
                lemma_named_step(syms@, i as int, n);
                assert(name_entry(before, n, f) == (if f == path@ {
                    if named(outline_view(syms@.take(i as int)), n).len() > 0 {
                        Some(named(outline_view(syms@.take(i as int)), n))
                    } else {
                        None
                    }
                } else {
                    name_entry(bn0, n, f)
                }));
            }
        }
        i = i + 1;
    }
    proof {
        assert(syms@.take(syms@.len() as int) =~= syms@);
    }
}

/// A field location as plain values: file, line, start byte.
pub open spec fn field_locations_view(v: Seq<FieldLocation>) -> Seq<(Seq<char>, usize, usize)> {
    v.map_values(|l: FieldLocation| (l.file@, l.line, l.start_byte))
}

/// Whether the tables `tm` place a field `fd` of struct `st` in file `f`
/// at `line`, starting at byte `b`.
pub open spec fn field_held(
    tm: Map<Seq<char>, TablesView>,
    st: Seq<char>,
    fd: Seq<char>,
    f: Seq<char>,
    line: usize,
    b: usize,
) -> bool {
    tm.contains_key(f) && tm[f].fields.contains_key(st) && field_locs(tm[f].fields[st], fd).contains((line, b))
}

/// A trait-impl location as plain values: file, impl line, self type.
pub open spec fn trait_locations_view(v: Seq<TraitImplLocation>) -> Seq<(Seq<char>, usize, Seq<char>)> {
    v.map_values(|l: TraitImplLocation| (l.file@, l.impl_line, l.self_type@))
}

/// The start byte of the first location in `s` on `line`.
pub open spec fn first_byte_at(s: Seq<(usize, usize)>, line: usize) -> Option<usize>
    decreases s.len(),
{
    if s.len() == 0 {
        None
    } else if s[0].0 == line {
        Some(s[0].1)
    } else {
        first_byte_at(s.drop_first(), line)
    }
}

/// The start byte of the first declaration of field `fd` of struct `st`
/// on `line` of `file`, per the tables `tm`.
pub open spec fn struct_candidate(tm: Map<Seq<char>, TablesView>, file: Seq<char>, st: Seq<char>, fd: Seq<char>, line: usize) -> Option<usize> {
    if tm.contains_key(file) && tm[file].fields.contains_key(st) {
        first_byte_at(field_locs(tm[file].fields[st], fd), line)
    } else {
        None
    }
}

/// `b` is no larger than the candidate `c`, if any.
pub open spec fn at_most(b: usize, c: Option<usize>) -> bool {
    match c {
        Some(x) => b <= x,
        None => true,
    }
}

/// The start byte of the first location in `v` on `line`.
fn first_at_line(v: &[(usize, usize)], line: usize) -> (r: Option<usize>)
    ensures
        r == first_byte_at(v@, line),
{
    let mut i: usize = 0;
    assert(v@.skip(0) =~= v@);
    while i < v.len()
        invariant
            i <= v@.len(),
            first_byte_at(v@, line) == first_byte_at(v@.skip(i as int), line),
        decreases v@.len() - i,
    {
        assert(v@.skip(i as int)[0] == v@[i as int]);
        if v[i].0 == line {
            return Some(v[i].1);
        }
        assert(v@.skip(i as int).drop_first() =~= v@.skip(i + 1));
        i = i + 1;
    }
    None
}

impl SymbolIndex {
    /// The maps hold distinct keys, every stored outline and tables entry
    /// is non-empty, the name map records exactly each file's definitions
    /// of each name, the total counts every stored definition, and the
    /// field and trait maps record exactly what the stored tables hold.
    pub closed spec fn wf(&self) -> bool {
        &&& self.files.wf()
        &&& self.by_name.wf()
        &&& forall|n: Seq<char>| #[trigger] self.by_name@.contains_key(n) ==> self.by_name@[n].wf()
        &&& forall|f: Seq<char>| #[trigger] self.files@.contains_key(f) ==> self.files@[f]@.len() > 0
        &&& forall|n: Seq<char>, f: Seq<char>|
            #[trigger] name_entry(self.by_name, n, f) == expected_entry(self@.files, n, f)
        &&& self.total == total_len(self@.files)
        &&& self.rust_tables.wf()
        &&& forall|f: Seq<char>|
            #[trigger] self.rust_tables@.contains_key(f) ==> self.rust_tables@[f].wf() && !tables_empty(
                self.rust_tables@[f]@,
            )
        &&& field_map_wf(self.rust_fields)
        &&& forall|st: Seq<char>, fd: Seq<char>, f: Seq<char>|
            #[trigger] field_entry(self.rust_fields, st, fd, f) == expected_field(self@.tables, st, fd, f)
        &&& trait_map_wf(self.rust_traits)
        &&& forall|t: Seq<char>, f: Seq<char>|
            #[trigger] trait_set(self.rust_traits, t, f) == expected_traits(self@.tables, t, f)
    }

    /// An empty index.
    pub fn new() -> (r: Self)
        ensures
            r.wf(),
            r@.files == Map::<Seq<char>, Seq<SymbolView>>::empty(),
            r@.tables == Map::<Seq<char>, TablesView>::empty(),
    {
        let r = SymbolIndex {
            files: KeyMap::new(),
            by_name: KeyMap::new(),
            total: 0,
            rust_tables: KeyMap::new(),
            rust_fields: KeyMap::new(),
            rust_traits: KeyMap::new(),
        };
        assert(r@.files =~= Map::<Seq<char>, Seq<SymbolView>>::empty());
        assert(r@.tables =~= Map::<Seq<char>, TablesView>::empty());
        assert forall|t: Seq<char>, f: Seq<char>| #[trigger] trait_set(r.rust_traits, t, f) == expected_traits(r@.tables, t, f) by {
            assert(expected_traits(r@.tables, t, f) =~= Set::<(usize, Seq<char>)>::empty());
        }
        r
    }

    /// Whether `path` has an outline.
    pub fn has(&self, path: &str) -> (b: bool)
        requires
            self.wf(),
        ensures
            b == self@.files.contains_key(path@),
    {
        self.files.contains_key(path)
    }

    /// The outline of `path` (empty when it has none).
    pub fn outline(&self, path: &str) -> (r: &[Symbol])
        requires
            self.wf(),
        ensures
            outline_view(r@) == (if self@.files.contains_key(path@) {
                self@.files[path@]
            } else {
                Seq::<SymbolView>::empty()
            }),
    {
        match self.files.get(path) {
            Some(v) => v.as_slice(),
            None => {
                let r: &[Symbol] = &[];
                assert(outline_view(r@) =~= Seq::<SymbolView>::empty());
                r
            },
        }
    }

    /// The number of definitions across all outlines.
    pub fn total(&self) -> (n: usize)
        requires
            self.wf(),
        ensures
            n == total_len(self@.files),
    {
        self.total
    }

    /// The number of files with an outline.
    pub fn file_count(&self) -> (n: usize)
        requires
            self.wf(),
        ensures
            n == self@.files.dom().len(),
    {
        assert(self@.files.dom() =~= self.files@.dom());
        self.files.len()
    }

    /// The number of files defining `name`.
    pub fn definition_count(&self, name: &str) -> (n: usize)
        requires
            self.wf(),
        ensures
            n == files_naming(self@.files, name@).len(),
    {
        match self.by_name.get(name) {
            Some(m) => {
                proof {
                    assert(m@.dom() =~= files_naming(self@.files, name@)) by {
                        assert forall|f: Seq<char>| m@.dom().contains(f) <==> files_naming(self@.files, name@).contains(f) by {
                            assert(name_entry(self.by_name, name@, f) == expected_entry(self@.files, name@, f));
                        }
                    }
                }
                m.len()
            },
            None => {
                proof {
                    assert(files_naming(self@.files, name@) =~= Set::<Seq<char>>::empty()) by {
                        assert forall|f: Seq<char>| !files_naming(self@.files, name@).contains(f) by {
                            assert(name_entry(self.by_name, name@, f) == expected_entry(self@.files, name@, f));
                        }
                    }
                }
                0
            },
        }
    }

    /// Replace the outline of `path`, keeping the name map consistent;
    /// an empty outline removes the file. `true` when the stored outline
    /// changed.
    pub fn set_file(&mut self, path: &str, symbols: Vec<Symbol>) -> (changed: bool)
        requires
            old(self).wf(),
            total_len(old(self)@.files.remove(path@)) + symbols@.len() <= usize::MAX,
        ensures
            final(self).wf(),
            changed == (if symbols@.len() == 0 {
                old(self)@.files.contains_key(path@)
            } else {
                !(old(self)@.files.contains_key(path@) && old(self)@.files[path@] == outline_view(symbols@))
            }),
            final(self)@.files == (if symbols@.len() == 0 {
                old(self)@.files.remove(path@)
            } else {
                old(self)@.files.insert(path@, outline_view(symbols@))
            }),
            final(self)@.tables == old(self)@.tables,
    {
        let ghost f0 = self@.files;
        let ghost bn0 = self.by_name;
        proof {
            self.files.lemma_entries();
            assert(f0.dom() =~= self.files@.dom());
            if f0.contains_key(path@) {
                lemma_total_len_remove(f0, path@);
            } else {
                assert(f0.remove(path@) =~= f0);
            }
        }
        let prev = self.files.remove(path);
        let prev_len: usize = match &prev {
            Some(v) => v.len(),
            None => 0,
        };
        let same = match &prev {
            Some(v) => outlines_same(v.as_slice(), symbols.as_slice()),
            None => false,
        };
        if same {
            self.files.insert(path.to_owned(), symbols);
            proof {
                assert(self@.files =~= f0);
                assert(self@.files =~= f0.insert(path@, outline_view(symbols@)));
            }
            return false;
        }
        match &prev {
            Some(v) => {
                proof {
                    assert forall|n: Seq<char>| #[trigger] name_entry(self.by_name, n, path@) is Some implies names_of(v@).contains(n) by {
                        assert(name_entry(self.by_name, n, path@) == expected_entry(f0, n, path@));
                        assert(f0[path@] == outline_view(v@));
                        let w = named(outline_view(v@), n);
                        assert(w.len() > 0);
                        lemma_named_has_name(v@, n);
                    }
                }
                drop_file_names(&mut self.by_name, path, v.as_slice());
            },
            None => {},
        }
        self.total = self.total.saturating_sub(prev_len);
        let ghost f1 = f0.remove(path@);
        proof {
            assert(self@.files =~= f1);
            assert forall|n: Seq<char>| #[trigger] name_entry(self.by_name, n, path@) is None by {
                if prev is None {
                    assert(name_entry(self.by_name, n, path@) == expected_entry(f0, n, path@));
                }
            }
        }
        if symbols.len() == 0 {
            proof {
                assert forall|n: Seq<char>, f: Seq<char>| #[trigger] name_entry(self.by_name, n, f) == expected_entry(self@.files, n, f) by {
                    if f != path@ {
                        assert(name_entry(bn0, n, f) == expected_entry(f0, n, f));
                    }
                }
            }
            return prev.is_some();
        }
        add_file_names(&mut self.by_name, path, symbols.as_slice());
        let n_new = symbols.len();
        let ghost sv = outline_view(symbols@);
        self.files.insert(path.to_owned(), symbols);
        self.total = self.total.saturating_add(n_new);
        proof {
            let f2 = f1.insert(path@, sv);
            assert(self@.files =~= f2);
            assert(f2.remove(path@) =~= f1);
            assert(f2.dom() =~= f1.dom().insert(path@));
            lemma_total_len_remove(f2, path@);
            assert forall|n: Seq<char>, f: Seq<char>| #[trigger] name_entry(self.by_name, n, f) == expected_entry(self@.files, n, f) by {
                if f != path@ {
                    assert(name_entry(bn0, n, f) == expected_entry(f0, n, f));
                }
            }
            assert(f2 =~= f0.insert(path@, sv));
        }
        true
    }

    /// Remove the outline of `path`; `true` when the file had one. The
    /// file's Rust tables leave with its outline (a file without an
    /// outline is left as it is).
    pub fn remove_file(&mut self, path: &str) -> (removed: bool)
        requires
            old(self).wf(),
        ensures
            final(self).wf(),
            removed == old(self)@.files.contains_key(path@),
            final(self)@.files == old(self)@.files.remove(path@),
            final(self)@.tables == (if removed {
                old(self)@.tables.remove(path@)
            } else {
                old(self)@.tables
            }),
    {
        let ghost f0 = self@.files;
        let ghost bn0 = self.by_name;
        proof {
            self.files.lemma_entries();
            assert(f0.dom() =~= self.files@.dom());
            if f0.contains_key(path@) {
                lemma_total_len_remove(f0, path@);
            }
        }
        let prev = match self.files.remove(path) {
            Some(v) => v,
            None => {
                proof {
                    assert(f0.remove(path@) =~= f0);
                    assert(self.files@ =~= old(self).files@);
                    assert(self@.files =~= f0);
                }
                return false;
            },
        };
        proof {
            assert forall|n: Seq<char>| #[trigger] name_entry(self.by_name, n, path@) is Some implies names_of(prev@).contains(n) by {
                assert(name_entry(self.by_name, n, path@) == expected_entry(f0, n, path@));
                lemma_named_has_name(prev@, n);
            }
        }
        drop_file_names(&mut self.by_name, path, prev.as_slice());
        self.total = self.total.saturating_sub(prev.len());
        proof {
            assert(self@.files =~= f0.remove(path@));
            assert forall|n: Seq<char>, f: Seq<char>| #[trigger] name_entry(self.by_name, n, f) == expected_entry(self@.files, n, f) by {
                if f != path@ {
                    assert(name_entry(bn0, n, f) == expected_entry(f0, n, f));
                }
            }
        }
        self.drop_tables(path);
        true
    }

    /// Take the Rust tables of `path` out, with their field- and trait-map
    /// contributions.
    fn drop_tables(&mut self, path: &str) -> (had: bool)
        requires
            old(self).files.wf(),
            old(self).rust_tables.wf(),
            forall|f: Seq<char>|
                #[trigger] old(self).rust_tables@.contains_key(f) ==> old(self).rust_tables@[f].wf() && !tables_empty(
                    old(self).rust_tables@[f]@,
                ),
            field_map_wf(old(self).rust_fields),
            forall|st: Seq<char>, fd: Seq<char>, f: Seq<char>|
                #[trigger] field_entry(old(self).rust_fields, st, fd, f) == expected_field(old(self)@.tables, st, fd, f),
            trait_map_wf(old(self).rust_traits),
            forall|t: Seq<char>, f: Seq<char>|
                #[trigger] trait_set(old(self).rust_traits, t, f) == expected_traits(old(self)@.tables, t, f),
        ensures
            final(self).files == old(self).files,
            final(self).by_name == old(self).by_name,
            final(self).total == old(self).total,
            final(self).rust_tables.wf(),
            forall|f: Seq<char>|
                #[trigger] final(self).rust_tables@.contains_key(f) ==> final(self).rust_tables@[f].wf() && !tables_empty(
                    final(self).rust_tables@[f]@,
                ),
            field_map_wf(final(self).rust_fields),
            forall|st: Seq<char>, fd: Seq<char>, f: Seq<char>|
                #[trigger] field_entry(final(self).rust_fields, st, fd, f) == expected_field(final(self)@.tables, st, fd, f),
            trait_map_wf(final(self).rust_traits),
            forall|t: Seq<char>, f: Seq<char>|
                #[trigger] trait_set(final(self).rust_traits, t, f) == expected_traits(final(self)@.tables, t, f),
            final(self)@.tables == old(self)@.tables.remove(path@),
            had == old(self)@.tables.contains_key(path@),
    {
        let ghost tm0 = self@.tables;
        let ghost rf0 = self.rust_fields;
        let ghost rt0 = self.rust_traits;
        match self.rust_tables.remove(path) {
            Some(prev) => {
                proof {
                    assert(tm0[path@] == prev@);
                    assert forall|st: Seq<char>, fd: Seq<char>| #[trigger] field_entry(rf0, st, fd, path@) is Some implies crate::nav::index::tables::contributed(prev.fields, st, fd) is Some by {
                        assert(field_entry(rf0, st, fd, path@) == expected_field(tm0, st, fd, path@));
                    }
                    assert forall|t: Seq<char>| #[trigger] trait_has(rt0, t, path@) implies exists|p: (usize, Seq<char>)|
                        crate::nav::index::tables::impl_pairs(crate::nav::index::impls_map_view(prev.impls), t).contains(p) by {
                        assert(trait_set(rt0, t, path@) == expected_traits(tm0, t, path@));
                        let l = trait_list(rt0, t, path@)->0;
                        assert(l.len() > 0);
                        assert(l.to_set().contains(l[0]));
                    }
                }
                drop_file_fields(&mut self.rust_fields, path, &prev.fields);
                drop_file_traits(&mut self.rust_traits, path, &prev.impls);
                proof {
                    assert(self@.tables =~= tm0.remove(path@));
                    assert forall|st: Seq<char>, fd: Seq<char>, f: Seq<char>| #[trigger] field_entry(self.rust_fields, st, fd, f) == expected_field(self@.tables, st, fd, f) by {
                        if f != path@ {
                            assert(field_entry(rf0, st, fd, f) == expected_field(tm0, st, fd, f));
                        }
                    }
                    assert forall|t: Seq<char>, f: Seq<char>| #[trigger] trait_set(self.rust_traits, t, f) == expected_traits(self@.tables, t, f) by {
                        assert(trait_list(self.rust_traits, t, f) == (if f == path@ { None } else { trait_list(rt0, t, f) }));
                        if f != path@ {
                            assert(trait_set(rt0, t, f) == expected_traits(tm0, t, f));
                        }
                    }
                }
                true
            },
            None => {
                proof {
                    assert(self.rust_tables@ =~= old(self).rust_tables@);
                    assert(self@.tables =~= tm0);
                    assert(tm0.remove(path@) =~= tm0);
                }
                false
            },
        }
    }

    /// Replace the Rust tables of `path`, keeping the field and trait maps
    /// consistent; empty tables store no entry. `true` when the stored
    /// tables changed.
    pub fn set_file_tables(&mut self, path: &str, tables: RustTables) -> (changed: bool)
        requires
            old(self).wf(),
            tables.wf(),
        ensures
            final(self).wf(),
            final(self)@.files == old(self)@.files,
            final(self)@.tables == (if tables_empty(tables@) {
                old(self)@.tables.remove(path@)
            } else {
                old(self)@.tables.insert(path@, tables@)
            }),
            changed == (if tables_empty(tables@) {
                old(self)@.tables.contains_key(path@)
            } else {
                !(old(self)@.tables.contains_key(path@) && old(self)@.tables[path@] == tables@)
            }),
    {
        let empty = tables.is_empty();
        let ghost tm0 = self@.tables;
        let same = match self.rust_tables.get(path) {
            Some(t) => t.same_as(&tables),
            None => false,
        };
        if same && !empty {
            let ghost rt_before = self.rust_tables;
            self.rust_tables.insert(path.to_owned(), tables);
            proof {
                assert(self@.tables =~= tm0);
                assert(self@.tables =~= tm0.insert(path@, tables@));
                assert forall|f: Seq<char>| #[trigger] self.rust_tables@.contains_key(f) implies self.rust_tables@[f].wf()
                    && !tables_empty(self.rust_tables@[f]@) by {
                    if f != path@ {
                        assert(rt_before@.contains_key(f));
                    }
                }
            }
            return false;
        }
        let had = self.drop_tables(path);
        if empty {
            return had;
        }
        let ghost tm1 = self@.tables;
        let ghost rf1 = self.rust_fields;
        let ghost rt1 = self.rust_traits;
        proof {
            assert forall|st: Seq<char>, fd: Seq<char>| #[trigger] field_entry(rf1, st, fd, path@) is None by {
                assert(field_entry(rf1, st, fd, path@) == expected_field(tm1, st, fd, path@));
            }
            assert forall|t: Seq<char>| !(#[trigger] trait_has(rt1, t, path@)) by {
                assert(trait_set(rt1, t, path@) == expected_traits(tm1, t, path@));
                if trait_has(rt1, t, path@) {
                    let l = trait_list(rt1, t, path@)->0;
                    assert(l.to_set().contains(l[0]));
                }
            }
        }
        add_file_fields(&mut self.rust_fields, path, &tables.fields);
        add_file_traits(&mut self.rust_traits, path, &tables.impls);
        let ghost tv = tables@;
        let ghost rt_before = self.rust_tables;
        self.rust_tables.insert(path.to_owned(), tables);
        proof {
            assert(self@.tables =~= tm1.insert(path@, tv));
            assert(tm1 == tm0.remove(path@));
            assert(self@.tables =~= tm0.insert(path@, tv));
            assert forall|f: Seq<char>| #[trigger] self.rust_tables@.contains_key(f) implies self.rust_tables@[f].wf()
                && !tables_empty(self.rust_tables@[f]@) by {
                if f != path@ {
                    assert(rt_before@.contains_key(f));
                }
            }
            assert forall|st: Seq<char>, fd: Seq<char>, f: Seq<char>| #[trigger] field_entry(self.rust_fields, st, fd, f) == expected_field(self@.tables, st, fd, f) by {
                if f != path@ {
                    assert(field_entry(rf1, st, fd, f) == expected_field(tm1, st, fd, f));
                }
            }
            assert forall|t: Seq<char>, f: Seq<char>| #[trigger] trait_set(self.rust_traits, t, f) == expected_traits(self@.tables, t, f) by {
                if f != path@ {
                    assert(trait_list(self.rust_traits, t, f) == trait_list(rt1, t, f));
                    assert(trait_set(rt1, t, f) == expected_traits(tm1, t, f));
                }
            }
        }
        true
    }

    /// Every definition named `name` (all files), ordered by (file, line,
    /// name).
    pub fn definitions_of(&self, name: &str) -> (r: Vec<Location>)
        requires
            self.wf(),
        ensures
            sorted_by_key(r@),
            forall|f: Seq<char>, s: SymbolView|
                #[trigger] count_at(r@, f, s) == held_named(self@.files, name@, f, s),
            forall|k: KeyView| #[trigger] locations_view(r@).filter(key_is(k)) == (if k.2 == name@ {
                key_group(self@.files, k)
            } else {
                Seq::empty()
            }),
    {
        let out = match self.by_name.get(name) {
            Some(m) => collect_locations(m),
            None => Vec::new(),
        };
        proof {
            assert forall|f: Seq<char>, s: SymbolView| #[trigger] count_at(out@, f, s) == held_named(self@.files, name@, f, s) by {
                broadcast use vstd::seq_lib::group_to_multiset_ensures;

                assert(name_entry(self.by_name, name@, f) == expected_entry(self@.files, name@, f));
                if self@.files.contains_key(f) && named(self@.files[f], name@).len() == 0 {
                    vstd::multiset::axiom_count_le_len(named(self@.files[f], name@).to_multiset(), s);
                }
                if !self.by_name@.contains_key(name@) {
                    assert(locations_view(out@) =~= Seq::<(Seq<char>, SymbolView)>::empty());
                    vstd::seq_lib::to_multiset_len(locations_view(out@));
                    vstd::multiset::axiom_count_le_len(locations_view(out@).to_multiset(), (f, s));
                }
            }
        }
        proof {
            assert forall|k: KeyView| #[trigger] locations_view(out@).filter(key_is(k)) == (if k.2 == name@ {
                key_group(self@.files, k)
            } else {
                Seq::empty()
            }) by {
                let fs = self@.files;
                assert(name_entry(self.by_name, name@, k.0) == expected_entry(fs, name@, k.0));
                if fs.contains_key(k.0) {
                    lemma_named_group(k.0, fs[k.0], name@, k);
                    if named(fs[k.0], name@).len() == 0 {
                        assert(at_file(k.0, named(fs[k.0], name@)) =~= Seq::<(Seq<char>, SymbolView)>::empty());
                        lemma_filter_none(Seq::<(Seq<char>, SymbolView)>::empty(), key_is(k));
                    }
                }
                if !self.by_name@.contains_key(name@) {
                    assert(locations_view(out@) =~= Seq::<(Seq<char>, SymbolView)>::empty());
                    lemma_filter_none(locations_view(out@), key_is(k));
                }
            }
        }
        let r = sort_by_key(out);
        proof {
            lemma_map_multiset(r@, out@, |l: Location| l@);
            assert(locations_view(r@).to_multiset() == locations_view(out@).to_multiset());
            assert forall|f: Seq<char>, s: SymbolView| #[trigger] count_at(r@, f, s) == count_at(out@, f, s) by {}
            assert forall|k: KeyView| #[trigger] locations_view(r@).filter(key_is(k)) == locations_view(out@).filter(key_is(k)) by {
                lemma_sorted_groups(r@, out@, k);
            }
        }
        r
    }

    /// Every definition of every file, ordered by (file, line, name).
    pub fn all_locations(&self) -> (r: Vec<Location>)
        requires
            self.wf(),
        ensures
            sorted_by_key(r@),
            forall|f: Seq<char>, s: SymbolView| #[trigger] count_at(r@, f, s) == held(self@.files, f, s),
            forall|k: KeyView| #[trigger] locations_view(r@).filter(key_is(k)) == key_group(self@.files, k),
    {
        let out = collect_locations(&self.files);
        let r = sort_by_key(out);
        proof {
            assert forall|k: KeyView| #[trigger] locations_view(r@).filter(key_is(k)) == key_group(self@.files, k) by {
                lemma_sorted_groups(r@, out@, k);
                assert(self@.files.contains_key(k.0) == self.files@.contains_key(k.0));
            }
            lemma_map_multiset(r@, out@, |l: Location| l@);
            assert(locations_view(r@).to_multiset() == locations_view(out@).to_multiset());
            assert(self@.files.dom() =~= self.files@.dom());
            assert forall|f: Seq<char>, s: SymbolView| #[trigger] count_at(r@, f, s) == held(self@.files, f, s) by {
                assert(count_at(r@, f, s) == count_at(out@, f, s));
            }
        }
        r
    }

    /// The Rust tables of `path`, when it has any.
    pub fn tables(&self, path: &str) -> (r: Option<&RustTables>)
        requires
            self.wf(),
        ensures
            match r {
                Some(t) => self@.tables.contains_key(path@) && t@ == self@.tables[path@] && t.wf(),
                None => !self@.tables.contains_key(path@),
            },
    {
        self.rust_tables.get(path)
    }

    /// Every location of field `field` of struct `struct_name` (all
    /// files), ordered by file, line and start byte, each once.
    pub fn field_locations(&self, struct_name: &str, field: &str) -> (r: Vec<FieldLocation>)
        requires
            self.wf(),
        ensures
            sorted_by_key(r@),
            forall|j: int| 0 < j < r@.len() ==> !(#[trigger] r@[j - 1]).same_item(&r@[j]),
            forall|f: Seq<char>, line: usize, b: usize|
                #[trigger] field_locations_view(r@).contains((f, line, b)) == field_held(
                    self@.tables,
                    struct_name@,
                    field@,
                    f,
                    line,
                    b,
                ),
    {
        let mut out: Vec<FieldLocation> = Vec::new();
        let ghost mut found: Option<KeyMap<Vec<(usize, usize)>>> = None;
        match self.rust_fields.get(struct_name) {
            Some(bf) => {
                match bf.get(field) {
                    Some(per_file) => {
                        proof {
                            found = Some(*per_file);
                            per_file.lemma_entries();
                        }
                        let n = per_file.len();
                        let mut i: usize = 0;
                        while i < n
                            invariant
                                per_file.wf(),
                                n == per_file.entries_seq().len(),
                                i <= n,
                                forall|k: int| #![trigger per_file.entries_seq()[k]] 0 <= k < per_file.entries_seq().len()
                                    ==> per_file@.contains_key(per_file.entries_seq()[k].0@)
                                    && per_file@[per_file.entries_seq()[k].0@] == per_file.entries_seq()[k].1,
                                forall|f: Seq<char>, line: usize, b: usize|
                                    #[trigger] field_locations_view(out@).contains((f, line, b)) == (exists|k: int|
                                        0 <= k < i && per_file.entries_seq()[k].0@ == f
                                            && #[trigger] per_file.entries_seq()[k].1@.contains((line, b))),
                            decreases n - i,
                        {
                            let e = per_file.entry_at(i);
                            let mut j: usize = 0;
                            let ghost base = out@;
                            while j < e.1.len()
                                invariant
                                    e == per_file.entries_seq()[i as int],
                                    j <= e.1@.len(),
                                    forall|f: Seq<char>, line: usize, b: usize|
                                        #[trigger] field_locations_view(out@).contains((f, line, b)) == (field_locations_view(base).contains((f, line, b))
                                            || (f == e.0@ && e.1@.take(j as int).contains((line, b)))),
                                decreases e.1@.len() - j,
                            {
                                let (line, b) = e.1[j];
                                let loc = FieldLocation { file: e.0.clone(), line, start_byte: b };
                                let ghost before = out@;
                                out.push(loc);
                                proof {
                                    assert(field_locations_view(out@) =~= field_locations_view(before).push((e.0@, line, b)));
                                    assert(e.1@.take(j + 1) =~= e.1@.take(j as int).push((line, b)));
                                    assert forall|f: Seq<char>, l: usize, c: usize| #[trigger] field_locations_view(out@).contains((f, l, c)) == (field_locations_view(base).contains((f, l, c))
                                        || (f == e.0@ && e.1@.take(j + 1).contains((l, c)))) by {
                                        broadcast use vstd::seq_lib::lemma_seq_contains_after_push;

                                    }
                                }
                                j = j + 1;
                            }
                            proof {
                                assert(e.1@.take(e.1@.len() as int) =~= e.1@);
                                assert forall|f: Seq<char>, line: usize, b: usize| #[trigger] field_locations_view(out@).contains((f, line, b)) == (exists|k: int|
                                    0 <= k < i + 1 && per_file.entries_seq()[k].0@ == f
                                        && #[trigger] per_file.entries_seq()[k].1@.contains((line, b))) by {
                                    if f == e.0@ && e.1@.contains((line, b)) {
                                        assert(per_file.entries_seq()[i as int].1@.contains((line, b)));
                                    }
                                    if exists|k: int| 0 <= k < i + 1 && per_file.entries_seq()[k].0@ == f
                                        && #[trigger] per_file.entries_seq()[k].1@.contains((line, b)) {
                                        let k = choose|k: int| 0 <= k < i + 1 && per_file.entries_seq()[k].0@ == f
                                            && #[trigger] per_file.entries_seq()[k].1@.contains((line, b));
                                        if k < i {
                                            assert(field_locations_view(base).contains((f, line, b)));
                                        }
                                    }
                                }
                            }
                            i = i + 1;
                        }
                    },
                    None => {},
                }
            },
            None => {},
        }
        proof {
            assert forall|f: Seq<char>, line: usize, b: usize| #[trigger] field_locations_view(out@).contains((f, line, b))
                == field_held(self@.tables, struct_name@, field@, f, line, b) by {
                assert(field_entry(self.rust_fields, struct_name@, field@, f) == expected_field(self@.tables, struct_name@, field@, f));
                match found {
                    Some(per_file) => {
                        per_file.lemma_entries();
                        if per_file@.contains_key(f) {
                            let k = choose|k: int| 0 <= k < per_file.entries_seq().len() && #[trigger] per_file.entries_seq()[k].0@ == f;
                            assert(per_file@[f] == per_file.entries_seq()[k].1);
                        }
                        if exists|k: int| 0 <= k < per_file.entries_seq().len() && per_file.entries_seq()[k].0@ == f
                            && #[trigger] per_file.entries_seq()[k].1@.contains((line, b)) {
                            let k = choose|k: int| 0 <= k < per_file.entries_seq().len() && per_file.entries_seq()[k].0@ == f
                                && #[trigger] per_file.entries_seq()[k].1@.contains((line, b));
                            assert(per_file@.contains_key(f));
                        }
                    },
                    None => {
                        assert(field_locations_view(out@) =~= Seq::<(Seq<char>, usize, usize)>::empty());
                    },
                }
            }
        }
        let sorted = sort_by_key(out);
        let r = dedup_adjacent(sorted);
        proof {
            assert forall|f: Seq<char>, line: usize, b: usize| #[trigger] field_locations_view(r@).contains((f, line, b))
                == field_locations_view(out@).contains((f, line, b)) by {
                broadcast use vstd::seq_lib::group_to_multiset_ensures;

                if field_locations_view(r@).contains((f, line, b)) {
                    let j = choose|j: int| 0 <= j < field_locations_view(r@).len() && field_locations_view(r@)[j] == (f, line, b);
                    let k = choose|k: int| #![trigger sorted@[k]] 0 <= k < sorted@.len() && r@[j] == sorted@[k];
                    assert(sorted@.contains(sorted@[k]));
                    assert(out@.to_multiset().count(sorted@[k]) > 0);
                    assert(out@.contains(sorted@[k]));
                    let m = choose|m: int| 0 <= m < out@.len() && out@[m] == sorted@[k];
                    assert(field_locations_view(out@)[m] == (f, line, b));
                }
                if field_locations_view(out@).contains((f, line, b)) {
                    let m = choose|m: int| 0 <= m < field_locations_view(out@).len() && field_locations_view(out@)[m] == (f, line, b);
                    assert(out@.contains(out@[m]));
                    assert(sorted@.to_multiset().count(out@[m]) > 0);
                    assert(sorted@.contains(out@[m]));
                    let k = choose|k: int| 0 <= k < sorted@.len() && sorted@[k] == out@[m];
                    let j = choose|j: int| #![trigger r@[j]] 0 <= j < r@.len() && r@[j].same_item(&sorted@[k]);
                    assert(field_locations_view(r@)[j] == (f, line, b));
                }
            }
        }
        r
    }

    /// Every `impl <trait_name> for <Type>` block in the index, ordered by
    /// (file, impl line, self type), each once.
    pub fn trait_impl_locations(&self, trait_name: &str) -> (r: Vec<TraitImplLocation>)
        requires
            self.wf(),
        ensures
            sorted_by_key(r@),
            forall|j: int| 0 < j < r@.len() ==> !(#[trigger] r@[j - 1]).same_item(&r@[j]),
            forall|f: Seq<char>, line: usize, st: Seq<char>|
                #[trigger] trait_locations_view(r@).contains((f, line, st)) == expected_traits(
                    self@.tables,
                    trait_name@,
                    f,
                ).contains((line, st)),
    {
        let mut out: Vec<TraitImplLocation> = Vec::new();
        let ghost mut found: Option<KeyMap<Vec<TraitImpl>>> = None;
        match self.rust_traits.get(trait_name) {
            Some(per_file) => {
                proof {
                    found = Some(*per_file);
                    per_file.lemma_entries();
                }
                let n = per_file.len();
                let mut i: usize = 0;
                while i < n
                    invariant
                        per_file.wf(),
                        n == per_file.entries_seq().len(),
                        i <= n,
                        forall|f: Seq<char>, line: usize, st: Seq<char>|
                            #[trigger] trait_locations_view(out@).contains((f, line, st)) == (exists|k: int|
                                0 <= k < i && per_file.entries_seq()[k].0@ == f
                                    && #[trigger] impls_view(per_file.entries_seq()[k].1@).contains((line, st))),
                    decreases n - i,
                {
                    let e = per_file.entry_at(i);
                    let mut j: usize = 0;
                    let ghost base = out@;
                    let ghost w = impls_view(e.1@);
                    while j < e.1.len()
                        invariant
                            e == per_file.entries_seq()[i as int],
                            w == impls_view(e.1@),
                            j <= e.1@.len(),
                            forall|f: Seq<char>, line: usize, st: Seq<char>|
                                #[trigger] trait_locations_view(out@).contains((f, line, st)) == (trait_locations_view(base).contains((f, line, st))
                                    || (f == e.0@ && w.take(j as int).contains((line, st)))),
                        decreases e.1@.len() - j,
                    {
                        let x = &e.1[j];
                        let loc = TraitImplLocation { file: e.0.clone(), impl_line: x.impl_line, self_type: x.self_type.clone() };
                        let ghost before = out@;
                        out.push(loc);
                        proof {
                            assert(trait_locations_view(out@) =~= trait_locations_view(before).push((e.0@, x.impl_line, x.self_type@)));
                            assert(w.take(j + 1) =~= w.take(j as int).push(ti_view(*x)));
                            assert forall|f: Seq<char>, l: usize, st: Seq<char>| #[trigger] trait_locations_view(out@).contains((f, l, st)) == (trait_locations_view(base).contains((f, l, st))
                                || (f == e.0@ && w.take(j + 1).contains((l, st)))) by {
                                broadcast use vstd::seq_lib::lemma_seq_contains_after_push;

                            }
                        }
                        j = j + 1;
                    }
                    proof {
                        assert(w.take(w.len() as int) =~= w);
                        assert forall|f: Seq<char>, line: usize, st: Seq<char>| #[trigger] trait_locations_view(out@).contains((f, line, st)) == (exists|k: int|
                            0 <= k < i + 1 && per_file.entries_seq()[k].0@ == f
                                && #[trigger] impls_view(per_file.entries_seq()[k].1@).contains((line, st))) by {
                            if f == e.0@ && w.contains((line, st)) {
                                assert(impls_view(per_file.entries_seq()[i as int].1@).contains((line, st)));
                            }
                            if exists|k: int| 0 <= k < i + 1 && per_file.entries_seq()[k].0@ == f
                                && #[trigger] impls_view(per_file.entries_seq()[k].1@).contains((line, st)) {
                                let k = choose|k: int| 0 <= k < i + 1 && per_file.entries_seq()[k].0@ == f
                                    && #[trigger] impls_view(per_file.entries_seq()[k].1@).contains((line, st));
                                if k < i {
                                    assert(trait_locations_view(base).contains((f, line, st)));
                                }
                            }
                        }
                    }
                    i = i + 1;
                }
            },
            None => {},
        }
        proof {
            assert forall|f: Seq<char>, line: usize, st: Seq<char>| #[trigger] trait_locations_view(out@).contains((f, line, st))
                == expected_traits(self@.tables, trait_name@, f).contains((line, st)) by {
                assert(trait_set(self.rust_traits, trait_name@, f) == expected_traits(self@.tables, trait_name@, f));
                match found {
                    Some(per_file) => {
                        per_file.lemma_entries();
                        if per_file@.contains_key(f) {
                            let k = choose|k: int| 0 <= k < per_file.entries_seq().len() && #[trigger] per_file.entries_seq()[k].0@ == f;
                            assert(per_file@[f] == per_file.entries_seq()[k].1);
                        }
                        if exists|k: int| 0 <= k < per_file.entries_seq().len() && per_file.entries_seq()[k].0@ == f
                            && #[trigger] impls_view(per_file.entries_seq()[k].1@).contains((line, st)) {
                            let k = choose|k: int| 0 <= k < per_file.entries_seq().len() && per_file.entries_seq()[k].0@ == f
                                && #[trigger] impls_view(per_file.entries_seq()[k].1@).contains((line, st));
                            assert(per_file@.contains_key(f));
                        }
                    },
                    None => {
                        assert(trait_locations_view(out@) =~= Seq::<(Seq<char>, usize, Seq<char>)>::empty());
                    },
                }
            }
        }
        let sorted = sort_by_key(out);
        let r = dedup_adjacent(sorted);
        proof {
            assert forall|f: Seq<char>, line: usize, st: Seq<char>| #[trigger] trait_locations_view(r@).contains((f, line, st))
                == trait_locations_view(out@).contains((f, line, st)) by {
                broadcast use vstd::seq_lib::group_to_multiset_ensures;

                if trait_locations_view(r@).contains((f, line, st)) {
                    let j = choose|j: int| 0 <= j < trait_locations_view(r@).len() && trait_locations_view(r@)[j] == (f, line, st);
                    let k = choose|k: int| #![trigger sorted@[k]] 0 <= k < sorted@.len() && r@[j] == sorted@[k];
                    assert(sorted@.contains(sorted@[k]));
                    assert(out@.to_multiset().count(sorted@[k]) > 0);
                    assert(out@.contains(sorted@[k]));
                    let m = choose|m: int| 0 <= m < out@.len() && out@[m] == sorted@[k];
                    assert(trait_locations_view(out@)[m] == (f, line, st));
                }
                if trait_locations_view(out@).contains((f, line, st)) {
                    let m = choose|m: int| 0 <= m < trait_locations_view(out@).len() && trait_locations_view(out@)[m] == (f, line, st);
                    assert(out@.contains(out@[m]));
                    assert(sorted@.to_multiset().count(out@[m]) > 0);
                    assert(sorted@.contains(out@[m]));
                    let k = choose|k: int| 0 <= k < sorted@.len() && sorted@[k] == out@[m];
                    let j = choose|j: int| #![trigger r@[j]] 0 <= j < r@.len() && r@[j].same_item(&sorted@[k]);
                    assert(trait_locations_view(r@)[j] == (f, line, st));
                }
            }
        }
        r
    }

    /// The start byte of field `field` declared on `line` of `file`: over
    /// every struct with such a field there, the first declaration on that
    /// line, and the smallest of those bytes; `None` when there is none.
    pub fn field_start_byte(&self, file: &str, line: usize, field: &str) -> (r: Option<usize>)
        requires
            self.wf(),
        ensures
            match r {
                Some(b) => (exists|st: Seq<char>| struct_candidate(self@.tables, file@, st, field@, line) == Some(b))
                    && forall|st: Seq<char>| at_most(b, #[trigger] struct_candidate(self@.tables, file@, st, field@, line)),
                None => forall|st: Seq<char>| #[trigger] struct_candidate(self@.tables, file@, st, field@, line) is None,
            },
    {
        proof {
            self.rust_fields.lemma_entries();
        }
        let ghost tm = self@.tables;
        let ghost es = self.rust_fields.entries_seq();
        let n = self.rust_fields.len();
        let mut best: Option<usize> = None;
        let mut i: usize = 0;
        while i < n
            invariant
                self.wf(),
                tm == self@.tables,
                es == self.rust_fields.entries_seq(),
                n == es.len(),
                i <= n,
                forall|k: int| #![trigger es[k]] 0 <= k < es.len() ==> self.rust_fields@.contains_key(es[k].0@)
                    && self.rust_fields@[es[k].0@] == es[k].1,
                forall|k: int| 0 <= k < i ==> match best {
                    Some(b) => at_most(b, struct_candidate(tm, file@, #[trigger] es[k].0@, field@, line)),
                    None => struct_candidate(tm, file@, es[k].0@, field@, line) is None,
                },
                best matches Some(b) ==> exists|k: int| 0 <= k < i && struct_candidate(tm, file@, #[trigger] es[k].0@, field@, line) == Some(b),
            decreases n - i,
        {
            let e = self.rust_fields.entry_at(i);
            let cand = match e.1.get(field) {
                Some(fm) => match fm.get(file) {
                    Some(v) => first_at_line(v.as_slice(), line),
                    None => None,
                },
                None => None,
            };
            proof {
                let st = e.0@;
                assert(field_entry(self.rust_fields, st, field@, file@) == expected_field(tm, st, field@, file@));
                assert(cand == struct_candidate(tm, file@, st, field@, line));
            }
            let ghost old_best = best;
            best = match (best, cand) {
                (Some(a), Some(c)) => if c < a {
                    Some(c)
                } else {
                    Some(a)
                },
                (None, Some(c)) => Some(c),
                (b, None) => b,
            };
            proof {
                if best is Some && !(old_best is Some && best == old_best) {
                    assert(struct_candidate(tm, file@, es[i as int].0@, field@, line) == best);
                }
            }
            i = i + 1;
        }
        proof {
            assert forall|st: Seq<char>| #![trigger struct_candidate(tm, file@, st, field@, line)]
                !self.rust_fields@.contains_key(st) implies struct_candidate(tm, file@, st, field@, line) is None by {
                assert(field_entry(self.rust_fields, st, field@, file@) == expected_field(tm, st, field@, file@));
            }
            match best {
                Some(b) => {
                    let k = choose|k: int| 0 <= k < i && struct_candidate(tm, file@, #[trigger] es[k].0@, field@, line) == Some(b);
                    assert(struct_candidate(tm, file@, es[k].0@, field@, line) == Some(b));
                    assert forall|st: Seq<char>| at_most(b, #[trigger] struct_candidate(tm, file@, st, field@, line)) by {
                        if self.rust_fields@.contains_key(st) {
                            let a = choose|a: int| 0 <= a < es.len() && #[trigger] es[a].0@ == st;
                            assert(at_most(b, struct_candidate(tm, file@, es[a].0@, field@, line)));
                        }
                    }
                },
                None => {
                    assert forall|st: Seq<char>| #[trigger] struct_candidate(tm, file@, st, field@, line) is None by {
                        if self.rust_fields@.contains_key(st) {
                            let a = choose|a: int| 0 <= a < es.len() && #[trigger] es[a].0@ == st;
                            assert(struct_candidate(tm, file@, es[a].0@, field@, line) is None);
                        }
                    }
                },
            }
        }
        best
    }

    /// The index's maps are finite.
    pub proof fn lemma_view_finite(&self)
        requires
            self.wf(),
        ensures
            self@.files.dom().finite(),
            self@.tables.dom().finite(),
    {
        self.files.lemma_entries();
        self.rust_tables.lemma_entries();
        assert(self@.files.dom() =~= self.files@.dom());
        assert(self@.tables.dom() =~= self.rust_tables@.dom());
    }
}

impl Default for SymbolIndex {
    fn default() -> (r: Self)
        ensures
            r.wf(),
            r@.files == Map::<Seq<char>, Seq<SymbolView>>::empty(),
            r@.tables == Map::<Seq<char>, TablesView>::empty(),
    {
        SymbolIndex::new()
    }
}

/// What `trait_impl_locations` promises of its answer `r` for trait `t`
/// over the tables `tm`.
pub open spec fn trait_answer(r: Seq<TraitImplLocation>, tm: Map<Seq<char>, TablesView>, t: Seq<char>) -> bool {
    &&& sorted_by_key(r)
    &&& forall|j: int| 0 < j < r.len() ==> !(#[trigger] r[j - 1]).same_item(&r[j])
    &&& forall|f: Seq<char>, line: usize, st: Seq<char>|
        #[trigger] trait_locations_view(r).contains((f, line, st)) == expected_traits(tm, t, f).contains(
            (line, st),
        )
}

/// The trait implementations of a trait are fixed by the tables: two
/// answers over the same tables are the same list. So re-setting a file's
/// tables to the same content (which leaves the tables as they were)
/// leaves every `trait_impl_locations` answer unchanged.
pub proof fn lemma_trait_locations_determined(
    a: Seq<TraitImplLocation>,
    b: Seq<TraitImplLocation>,
    tm: Map<Seq<char>, TablesView>,
    t: Seq<char>,
)
    requires
        trait_answer(a, tm, t),
        trait_answer(b, tm, t),
    ensures
        trait_locations_view(a) == trait_locations_view(b),
{
    lemma_ascending_keys(a);
    lemma_ascending_keys(b);
    let ka = keys_of(a);
    let kb = keys_of(b);
    let va = trait_locations_view(a);
    let vb = trait_locations_view(b);
    assert forall|x: KeyView| ka.contains(x) == kb.contains(x) by {
        if ka.contains(x) {
            let i = choose|i: int| 0 <= i < ka.len() && ka[i] == x;
            let e = va[i];
            assert(va.contains(e));
            assert(expected_traits(tm, t, e.0).contains((e.1, e.2)));
            assert(vb.contains((e.0, e.1, e.2)));
            let j = choose|j: int| 0 <= j < vb.len() && vb[j] == e;
            assert(kb[j] == x);
        }
        if kb.contains(x) {
            let i = choose|i: int| 0 <= i < kb.len() && kb[i] == x;
            let e = vb[i];
            assert(vb.contains(e));
            assert(expected_traits(tm, t, e.0).contains((e.1, e.2)));
            assert(va.contains((e.0, e.1, e.2)));
            let j = choose|j: int| 0 <= j < va.len() && va[j] == e;
            assert(ka[j] == x);
        }
    }
    lemma_ascending_unique(ka, kb);
    assert forall|i: int| 0 <= i < va.len() implies va[i] == vb[i] by {
        assert(ka[i] == kb[i]);
    }
    assert(va =~= vb);
}

proof fn lemma_filter_count<A>(s: Seq<A>, p: spec_fn(A) -> bool, x: A)
    ensures
        s.filter(p).to_multiset().count(x) == (if p(x) {
            s.to_multiset().count(x)
        } else {
            0
        }),
    decreases s.len(),
{
    broadcast use vstd::seq_lib::group_to_multiset_ensures;

    reveal(Seq::filter);
    if s.len() > 0 {
        lemma_filter_count(s.drop_last(), p, x);
        assert(s.drop_last().push(s.last()) =~= s);
    }
}

/// Whether a location's symbol is named `n`.
pub open spec fn location_named(n: Seq<char>) -> spec_fn((Seq<char>, SymbolView)) -> bool {
    |l: (Seq<char>, SymbolView)| l.1.name == n
}

/// The definitions of a name are the locations of all definitions
/// filtered to that name (each as often), and the files counted for the
/// name are exactly the files among those locations: `defs` and `all` are
/// answers of `definitions_of(n)` and `all_locations()` over the outlines
/// `m`.
pub proof fn lemma_definitions_filter_all(
    m: Map<Seq<char>, Seq<SymbolView>>,
    n: Seq<char>,
    defs: Seq<Location>,
    all: Seq<Location>,
)
    requires
        forall|f: Seq<char>, s: SymbolView| #[trigger] count_at(defs, f, s) == held_named(m, n, f, s),
        forall|f: Seq<char>, s: SymbolView| #[trigger] count_at(all, f, s) == held(m, f, s),
    ensures
        locations_view(defs).to_multiset() == locations_view(all).filter(location_named(n)).to_multiset(),
        forall|f: Seq<char>|
            #[trigger] files_naming(m, n).contains(f) <==> exists|s: SymbolView|
                locations_view(all).filter(location_named(n)).contains((f, s)),
{
    broadcast use vstd::seq_lib::group_to_multiset_ensures;

    let fa = locations_view(all).filter(location_named(n));
    assert forall|x: (Seq<char>, SymbolView)| locations_view(defs).to_multiset().count(x) == fa.to_multiset().count(x) by {
        lemma_filter_count(locations_view(all), location_named(n), x);
        lemma_definitions_are_named_locations(m, n, x.0, x.1);
        assert(count_at(defs, x.0, x.1) == locations_view(defs).to_multiset().count(x));
        assert(count_at(all, x.0, x.1) == locations_view(all).to_multiset().count(x));
    }
    assert(locations_view(defs).to_multiset() =~= fa.to_multiset());
    assert forall|f: Seq<char>| #[trigger] files_naming(m, n).contains(f) <==> exists|s: SymbolView| fa.contains((f, s)) by {
        lemma_definitions_are_named_locations(
            m,
            n,
            f,
            SymbolView { name: n, kind: Seq::empty(), line: 0, start_byte: 0, end_byte: 0, end_line: 0 },
        );
        if files_naming(m, n).contains(f) {
            let t = choose|t: SymbolView| t.name == n && #[trigger] held(m, f, t) > 0;
            lemma_filter_count(locations_view(all), location_named(n), (f, t));
            assert(count_at(all, f, t) > 0);
            assert(fa.to_multiset().count((f, t)) > 0);
            assert(fa.contains((f, t)));
        }
        if exists|s: SymbolView| fa.contains((f, s)) {
            let t = choose|t: SymbolView| fa.contains((f, t));
            assert(fa.to_multiset().count((f, t)) > 0);
            lemma_filter_count(locations_view(all), location_named(n), (f, t));
            assert(count_at(all, f, t) > 0);
            assert(t.name == n && held(m, f, t) > 0);
        }
    }
}

/// What `field_locations` promises of its answer `r` for field `fd` of
/// struct `st` over the tables `tm`.
pub open spec fn field_answer(r: Seq<FieldLocation>, tm: Map<Seq<char>, TablesView>, st: Seq<char>, fd: Seq<char>) -> bool {
    &&& sorted_by_key(r)
    &&& forall|j: int| 0 < j < r.len() ==> !(#[trigger] r[j - 1]).same_item(&r[j])
    &&& forall|f: Seq<char>, line: usize, b: usize|
        #[trigger] field_locations_view(r).contains((f, line, b)) == field_held(tm, st, fd, f, line, b)
}

/// The locations of a field are fixed by the tables: two answers over the
/// same tables are the same list. So re-setting a file's tables to the
/// same content (which leaves the tables as they were) leaves every
/// `field_locations` answer unchanged.
pub proof fn lemma_field_locations_determined(
    a: Seq<FieldLocation>,
    b: Seq<FieldLocation>,
    tm: Map<Seq<char>, TablesView>,
    st: Seq<char>,
    fd: Seq<char>,
)
    requires
        field_answer(a, tm, st, fd),
        field_answer(b, tm, st, fd),
    ensures
        field_locations_view(a) == field_locations_view(b),
{
    assert forall|x: FieldLocation, y: FieldLocation| #[trigger] x.sort_key() == #[trigger] y.sort_key() implies x.same_item(&y) by {
        lemma_field_key_is_item(x, y);
    }
    lemma_ascending_keys(a);
    lemma_ascending_keys(b);
    let ka = keys_of(a);
    let kb = keys_of(b);
    let va = field_locations_view(a);
    let vb = field_locations_view(b);
    assert forall|x: KeyView| ka.contains(x) == kb.contains(x) by {
        if ka.contains(x) {
            let i = choose|i: int| 0 <= i < ka.len() && ka[i] == x;
            let e = va[i];
            assert(va.contains(e));
            assert(vb.contains((e.0, e.1, e.2)));
            let j = choose|j: int| 0 <= j < vb.len() && vb[j] == e;
            assert(kb[j] == x);
        }
        if kb.contains(x) {
            let i = choose|i: int| 0 <= i < kb.len() && kb[i] == x;
            let e = vb[i];
            assert(vb.contains(e));
            assert(va.contains((e.0, e.1, e.2)));
            let j = choose|j: int| 0 <= j < va.len() && va[j] == e;
            assert(ka[j] == x);
        }
    }
    lemma_ascending_unique(ka, kb);
    assert forall|i: int| 0 <= i < va.len() implies va[i] == vb[i] by {
        assert(ka[i] == kb[i]);
        lemma_field_key_is_item(a[i], b[i]);
    }
    assert(va =~= vb);
}

/// Re-setting a file's tables to the non-empty tables it already holds
/// leaves the tables as they were, so `set_file_tables` reports no change
/// (its `changed` is `false` exactly when the file already held those
/// tables), and every `field_locations` and `trait_impl_locations` answer
/// after the call is the answer before it: `fa`, `ta` are answers over the
/// tables before, `fb`, `tb` over the tables after.
pub proof fn lemma_same_tables_keep_lookups(
    tm: Map<Seq<char>, TablesView>,
    path: Seq<char>,
    t: TablesView,
    st: Seq<char>,
    fd: Seq<char>,
    fa: Seq<FieldLocation>,
    fb: Seq<FieldLocation>,
    tr: Seq<char>,
    ta: Seq<TraitImplLocation>,
    tb: Seq<TraitImplLocation>,
)
    requires
        tm.contains_key(path),
        tm[path] == t,
        !tables_empty(t),
        field_answer(fa, tm, st, fd),
        field_answer(fb, tm.insert(path, t), st, fd),
        trait_answer(ta, tm, tr),
        trait_answer(tb, tm.insert(path, t), tr),
    ensures
        tm.insert(path, t) == tm,
        field_locations_view(fb) == field_locations_view(fa),
        trait_locations_view(tb) == trait_locations_view(ta),
{
    assert(tm.insert(path, t) =~= tm);
    lemma_field_locations_determined(fa, fb, tm, st, fd);
    lemma_trait_locations_determined(ta, tb, tm, tr);
}

/// The definitions of a name are the list of all definitions kept to that
/// name, in the same order: `defs` and `all` are answers of
/// `definitions_of(n)` and `all_locations()` over the outlines `m`.
pub proof fn lemma_definitions_are_filtered_locations(
    m: Map<Seq<char>, Seq<SymbolView>>,
    n: Seq<char>,
    defs: Seq<Location>,
    all: Seq<Location>,
)
    requires
        sorted_by_key(defs),
        sorted_by_key(all),
        forall|k: KeyView| #[trigger] locations_view(defs).filter(key_is(k)) == (if k.2 == n {
            key_group(m, k)
        } else {
            Seq::empty()
        }),
        forall|k: KeyView| #[trigger] locations_view(all).filter(key_is(k)) == key_group(m, k),
    ensures
        locations_view(defs) == locations_view(all).filter(location_named(n)),
{
    let a = locations_view(defs);
    let l = locations_view(all);
    let b = l.filter(location_named(n));
    lemma_locations_sorted(defs);
    lemma_locations_sorted(all);
    lemma_filter_sorted(l, location_named(n));
    assert forall|k: KeyView| #[trigger] a.filter(key_is(k)) == b.filter(key_is(k)) by {
        let both = |x: (Seq<char>, SymbolView)| location_named(n)(x) && key_is(k)(x);
        assert forall|x: (Seq<char>, SymbolView)| #[trigger] both(x) == (location_named(n)(x) && key_is(k)(x)) by {}
        assert forall|x: (Seq<char>, SymbolView)| #[trigger] both(x) == (key_is(k)(x) && location_named(n)(x)) by {}
        lemma_filter_twice(l, location_named(n), key_is(k), both);
        lemma_filter_twice(l, key_is(k), location_named(n), both);
        let g = l.filter(key_is(k));
        if k.2 == n {
            assert forall|i: int| 0 <= i < g.len() implies location_named(n)(#[trigger] g[i]) by {
                l.lemma_filter_pred(key_is(k), i);
            }
            lemma_filter_all(g, location_named(n));
        } else {
            assert forall|i: int| 0 <= i < g.len() implies !location_named(n)(#[trigger] g[i]) by {
                l.lemma_filter_pred(key_is(k), i);
            }
            lemma_filter_none(g, location_named(n));
        }
    }
    lemma_groups_determine(a, b);
}

} // verus!
