//! The deterministic order of index query results: by file, then a line
//! number, then a name; a stable sort and the removal of adjacent repeats.

use vstd::prelude::*;
use crate::text::{lex_lt, lemma_lex_total, lemma_lex_trans};

verus! {

/// A sort key: a file, a line number and a name.
pub type KeyView = (Seq<char>, int, Seq<char>);

/// Whether key `a` sorts strictly before key `b`: by file, then number,
/// then name.
pub open spec fn key_lt(a: KeyView, b: KeyView) -> bool {
    lex_lt(a.0, b.0) || (a.0 == b.0 && (a.1 < b.1 || (a.1 == b.1 && lex_lt(a.2, b.2))))
}

pub proof fn lemma_key_order(a: KeyView, b: KeyView, c: KeyView)
    ensures
        !key_lt(a, a),
        key_lt(a, b) ==> !key_lt(b, a),
        key_lt(a, b) && key_lt(b, c) ==> key_lt(a, c),
        a == b || key_lt(a, b) || key_lt(b, a),
{
    lemma_lex_total(a.0, b.0);
    lemma_lex_total(a.2, b.2);
    lemma_lex_total(a.0, a.0);
    lemma_lex_total(a.2, a.2);
    lemma_lex_total(b.0, c.0);
    lemma_lex_total(a.0, c.0);
    if lex_lt(a.0, b.0) && lex_lt(b.0, c.0) {
        lemma_lex_trans(a.0, b.0, c.0);
    }
    if lex_lt(a.2, b.2) && lex_lt(b.2, c.2) {
        lemma_lex_trans(a.2, b.2, c.2);
    }
}

/// An item with a sort key.
pub trait Keyed: Sized {
    spec fn sort_key(&self) -> KeyView;

    /// Whether two items hold the same values.
    spec fn same_item(&self, other: &Self) -> bool;

    /// Whether `self` sorts strictly before `other`.
    fn sorts_before(&self, other: &Self) -> (r: bool)
        ensures
            r == key_lt(self.sort_key(), other.sort_key()),
    ;

    /// Whether `self` and `other` hold the same values.
    fn is_same(&self, other: &Self) -> (r: bool)
        ensures
            r == self.same_item(other),
    ;

    /// A copy of `self`.
    fn copy_item(&self) -> (r: Self)
        ensures
            r == *self,
    ;

    /// Holding the same values is an equivalence that keeps the key.
    proof fn lemma_same_item(a: &Self, b: &Self, c: &Self)
        ensures
            a.same_item(a),
            a.same_item(b) ==> b.same_item(a),
            a.same_item(b) && b.same_item(c) ==> a.same_item(c),
            a.same_item(b) ==> a.sort_key() == b.sort_key(),
    ;
}

/// `s` is in ascending key order.
pub open spec fn sorted_by_key<T: Keyed>(s: Seq<T>) -> bool {
    forall|i: int, j: int|
        0 <= i < j < s.len() ==> !key_lt(#[trigger] s[j].sort_key(), #[trigger] s[i].sort_key())
}

proof fn lemma_insert_multiset<T>(s: Seq<T>, p: int, x: T)
    requires
        0 <= p <= s.len(),
    ensures
        s.insert(p, x).to_multiset() == s.to_multiset().insert(x),
{
    broadcast use vstd::seq_lib::group_to_multiset_ensures;

    let u = s.insert(p, x);
    s.insert_ensures(p, x);
    assert(u.remove(p) =~= s);
    assert(u[p] == x);
    assert(u.contains(x));
    assert(u.to_multiset() =~= s.to_multiset().insert(x));
}

/// Whether an item has sort key `k`.
pub open spec fn with_key<T: Keyed>(k: KeyView) -> spec_fn(T) -> bool {
    |x: T| x.sort_key() == k
}

/// Filtering a list none of whose items passes gives the empty list.
pub proof fn lemma_filter_none<A>(s: Seq<A>, p: spec_fn(A) -> bool)
    requires
        forall|i: int| 0 <= i < s.len() ==> !p(#[trigger] s[i]),
    ensures
        s.filter(p) == Seq::<A>::empty(),
    decreases s.len(),
{
    reveal(Seq::filter);
    if s.len() > 0 {
        lemma_filter_none(s.drop_last(), p);
        assert(!p(s[s.len() - 1]));
    }
}

/// Filtering a list all of whose items pass gives the list.
pub proof fn lemma_filter_all<A>(s: Seq<A>, p: spec_fn(A) -> bool)
    requires
        forall|i: int| 0 <= i < s.len() ==> p(#[trigger] s[i]),
    ensures
        s.filter(p) == s,
    decreases s.len(),
{
    reveal(Seq::filter);
    if s.len() > 0 {
        lemma_filter_all(s.drop_last(), p);
        assert(p(s[s.len() - 1]));
        assert(s.drop_last().push(s.last()) =~= s);
    }
}

/// Filtering by `p` and then by `q` is filtering once by `r`, the test
/// that both pass.
pub proof fn lemma_filter_twice<A>(s: Seq<A>, p: spec_fn(A) -> bool, q: spec_fn(A) -> bool, r: spec_fn(A) -> bool)
    requires
        forall|x: A| #[trigger] r(x) == (p(x) && q(x)),
    ensures
        s.filter(p).filter(q) == s.filter(r),
    decreases s.len(),
{
    reveal(Seq::filter);
    if s.len() > 0 {
        lemma_filter_twice(s.drop_last(), p, q, r);
        let x = s.last();
        assert(r(x) == (p(x) && q(x)));
        if p(x) {
            s.drop_last().filter(p).lemma_filter_push(x, q);
        }
    }
}

/// Filtering then mapping is mapping then filtering by the matching test.
pub proof fn lemma_filter_map<A, B>(s: Seq<A>, f: spec_fn(A) -> B, p: spec_fn(A) -> bool, q: spec_fn(B) -> bool)
    requires
        forall|x: A| #[trigger] p(x) == q(f(x)),
    ensures
        s.filter(p).map_values(f) == s.map_values(f).filter(q),
    decreases s.len(),
{
    reveal(Seq::filter);
    if s.len() > 0 {
        lemma_filter_map(s.drop_last(), f, p, q);
        assert(s.map_values(f).drop_last() =~= s.drop_last().map_values(f));
        assert(s.map_values(f).last() == f(s.last()));
        assert(p(s.last()) == q(f(s.last())));
        if p(s.last()) {
            assert(s.filter(p).map_values(f) =~= s.drop_last().filter(p).map_values(f).push(f(s.last())));
        } else {
            assert(s.filter(p) == s.drop_last().filter(p));
        }
    } else {
        assert(s.map_values(f) =~= Seq::<B>::empty());
    }
}

proof fn lemma_insert_group<T: Keyed>(before: Seq<T>, p: int, x: T, k: KeyView)
    requires
        0 <= p <= before.len(),
        forall|j: int| p <= j < before.len() ==> key_lt(x.sort_key(), #[trigger] before[j].sort_key()),
    ensures
        before.insert(p, x).filter(with_key::<T>(k)) == (if x.sort_key() == k {
            before.filter(with_key::<T>(k)).push(x)
        } else {
            before.filter(with_key::<T>(k))
        }),
{
    let w = with_key::<T>(k);
    let a = before.take(p);
    let b = before.skip(p);
    assert(before =~= a + b);
    assert(before.insert(p, x) =~= a.push(x) + b);
    Seq::filter_distributes_over_add(a, b, w);
    Seq::filter_distributes_over_add(a.push(x), b, w);
    a.lemma_filter_push(x, w);
    if x.sort_key() == k {
        assert forall|j: int| 0 <= j < b.len() implies !w(#[trigger] b[j]) by {
            lemma_key_order(x.sort_key(), b[j].sort_key(), b[j].sort_key());
            assert(b[j] == before[p + j]);
        }
        lemma_filter_none(b, w);
        assert(a.filter(w) + b.filter(w) =~= a.filter(w));
        assert(a.filter(w).push(x) + b.filter(w) =~= a.filter(w).push(x));
    }
}

/// `v` in ascending key order; items with equal keys keep their order.
pub fn sort_by_key<T: Keyed>(v: Vec<T>) -> (r: Vec<T>)
    ensures
        sorted_by_key(r@),
        r@.to_multiset() == v@.to_multiset(),
        r@.len() == v@.len(),
        forall|k: KeyView| #[trigger] r@.filter(with_key::<T>(k)) == v@.filter(with_key::<T>(k)),
{
    let mut out: Vec<T> = Vec::new();
    let mut rest = v;
    let ghost orig = rest@;
    let mut taken: usize = 0;
    let total = rest.len();
    proof {
        assert(orig.take(0) =~= out@);
    }
    while rest.len() > 0
        invariant
            total == orig.len(),
            taken + rest@.len() == orig.len(),
            out@.len() == taken,
            rest@ == orig.skip(taken as int),
            sorted_by_key(out@),
            out@.to_multiset() == orig.take(taken as int).to_multiset(),
            forall|k: KeyView| #[trigger] out@.filter(with_key::<T>(k)) == orig.take(taken as int).filter(with_key::<T>(k)),
        decreases rest@.len(),
    {
        let x = rest.remove(0);
        proof {
            assert(x == orig[taken as int]);
            assert(rest@ =~= orig.skip(taken + 1));
        }
        let mut p: usize = out.len();
        while p > 0 && x.sorts_before(&out[p - 1])
            invariant
                p <= out@.len(),
                sorted_by_key(out@),
                forall|j: int| p <= j < out@.len() ==> key_lt(x.sort_key(), #[trigger] out@[j].sort_key()),
            decreases p,
        {
            p = p - 1;
        }
        let ghost before = out@;
        proof {
            assert forall|j: int| 0 <= j < p implies !key_lt(x.sort_key(), #[trigger] before[j].sort_key()) by {
                if p > 0 {
                    lemma_key_order(x.sort_key(), before[p - 1].sort_key(), before[j].sort_key());
                    lemma_key_order(before[j].sort_key(), before[p - 1].sort_key(), x.sort_key());
                    lemma_key_order(x.sort_key(), before[j].sort_key(), before[p - 1].sort_key());
                }
            }
            lemma_insert_multiset(before, p as int, x);
        }
        out.insert(p, x);
        proof {
            let u = out@;
            before.insert_ensures(p as int, x);
            assert forall|a: int, b: int| 0 <= a < b < u.len() implies !key_lt(
                #[trigger] u[b].sort_key(),
                #[trigger] u[a].sort_key(),
            ) by {
                if b < p {
                    assert(u[a] == before[a] && u[b] == before[b]);
                } else if b == p {
                    assert(u[a] == before[a]);
                    lemma_key_order(x.sort_key(), before[a].sort_key(), x.sort_key());
                } else if a == p {
                    assert(u[b] == before[b - 1]);
                    lemma_key_order(x.sort_key(), before[b - 1].sort_key(), x.sort_key());
                } else if a < p {
                    assert(u[a] == before[a] && u[b] == before[b - 1]);
                } else {
                    assert(u[a] == before[a - 1] && u[b] == before[b - 1]);
                }
            }
            assert(orig.take(taken + 1) =~= orig.take(taken as int).push(x));
            assert forall|k: KeyView| #[trigger] u.filter(with_key::<T>(k)) == orig.take(taken + 1).filter(with_key::<T>(k)) by {
                lemma_insert_group(before, p as int, x, k);
                orig.take(taken as int).lemma_filter_push(x, with_key::<T>(k));
            }
            broadcast use vstd::seq_lib::group_to_multiset_ensures;

        }
        taken = taken + 1;
    }
    proof {
        assert(orig.take(orig.len() as int) =~= orig);
        broadcast use vstd::seq_lib::group_to_multiset_ensures;

    }
    out
}

/// A multiset-preserving rearrangement keeps the multiset of any image.
pub proof fn lemma_map_multiset<A, B>(a: Seq<A>, b: Seq<A>, f: spec_fn(A) -> B)
    requires
        a.to_multiset() == b.to_multiset(),
    ensures
        a.map_values(f).to_multiset() == b.map_values(f).to_multiset(),
    decreases a.len(),
{
    broadcast use vstd::seq_lib::group_to_multiset_ensures;

    vstd::seq_lib::to_multiset_len(a);
    vstd::seq_lib::to_multiset_len(b);
    if a.len() == 0 {
        assert(b.len() == 0);
        assert(a.map_values(f) =~= b.map_values(f));
    } else {
        let x = a.last();
        let q = a.drop_last();
        assert(a =~= q.push(x));
        assert(a.to_multiset().count(x) > 0);
        assert(b.to_multiset().count(x) > 0);
        assert(b.contains(x));
        let j = choose|j: int| 0 <= j < b.len() && b[j] == x;
        let br = b.remove(j);
        vstd::seq_lib::to_multiset_remove(b, j);
        assert(q.to_multiset() =~= a.to_multiset().remove(x));
        lemma_map_multiset(q, br, f);
        assert(a.map_values(f) =~= q.map_values(f).push(f(x)));
        let bm = b.map_values(f);
        assert(bm.remove(j) =~= br.map_values(f));
        vstd::seq_lib::to_multiset_remove(bm, j);
        assert(bm[j] == f(x));
        assert(bm.to_multiset().count(f(x)) > 0) by {
            assert(bm.contains(f(x)));
        }
        assert(bm.to_multiset() =~= bm.remove(j).to_multiset().insert(f(x)));
    }
}

/// `v` without each item that holds the same values as the one just
/// before it: what is kept comes from `v` in order, every item of `v` is
/// matched by one kept, and no two neighbours are the same.
pub fn dedup_adjacent<T: Keyed>(v: Vec<T>) -> (r: Vec<T>)
    ensures
        forall|j: int|
            #![trigger r@[j]]
            0 <= j < r@.len() ==> exists|k: int| #![trigger v@[k]] 0 <= k < v@.len() && r@[j] == v@[k],
        forall|k: int|
            #![trigger v@[k]]
            0 <= k < v@.len() ==> exists|j: int| #![trigger r@[j]] 0 <= j < r@.len() && r@[j].same_item(&v@[k]),
        forall|j: int| 0 < j < r@.len() ==> !(#[trigger] r@[j - 1]).same_item(&r@[j]),
        sorted_by_key(v@) ==> sorted_by_key(r@),
{
    let mut out: Vec<T> = Vec::new();
    let ghost mut idx: Seq<int> = Seq::empty();
    let mut i: usize = 0;
    while i < v.len()
        invariant
            i <= v@.len(),
            out@.len() <= i,
            idx.len() == out@.len(),
            forall|j: int| 0 <= j < out@.len() ==> 0 <= #[trigger] idx[j] < i && out@[j] == v@[idx[j]],
            forall|a: int, b: int| 0 <= a < b < idx.len() ==> #[trigger] idx[a] < #[trigger] idx[b],
            forall|k: int|
                #![trigger v@[k]]
                0 <= k < i ==> exists|j: int| #![trigger out@[j]] 0 <= j < out@.len() && out@[j].same_item(&v@[k]),
            forall|j: int| 0 < j < out@.len() ==> !(#[trigger] out@[j - 1]).same_item(&out@[j]),
            i > 0 ==> out@.len() > 0 && out@.last().same_item(&v@[i - 1]),
        decreases v@.len() - i,
    {
        let ghost before = out@;
        let fresh = i == 0 || !v[i - 1].is_same(&v[i]);
        proof {
            if i > 0 {
                let l = before.last();
                T::lemma_same_item(&l, &v@[i - 1], &v@[i as int]);
                T::lemma_same_item(&v@[i - 1], &l, &v@[i as int]);
                T::lemma_same_item(&l, &v@[i - 1], &l);
                // the last kept item matches v[i] exactly when v[i - 1] does
                assert(l.same_item(&v@[i as int]) == v@[i - 1].same_item(&v@[i as int]));
            }
            T::lemma_same_item(&v@[i as int], &v@[i as int], &v@[i as int]);
        }
        if fresh {
            let c = v[i].copy_item();
            out.push(c);
            proof {
                assert(out@ == before.push(v@[i as int]));
                idx = idx.push(i as int);
                assert forall|k: int| #![trigger v@[k]] 0 <= k < i + 1 implies exists|j: int| #![trigger out@[j]] 0 <= j < out@.len() && out@[j].same_item(&v@[k]) by {
                    if k < i {
                        let j = choose|j: int| #![trigger before[j]] 0 <= j < before.len() && before[j].same_item(&v@[k]);
                        assert(out@[j] == before[j]);
                    } else {
                        assert(out@[before.len() as int] == v@[k]);
                    }
                }
                assert forall|j: int| 0 < j < out@.len() implies !(#[trigger] out@[j - 1]).same_item(&out@[j]) by {
                    if j < before.len() {
                        assert(out@[j - 1] == before[j - 1] && out@[j] == before[j]);
                    } else {
                        assert(out@[j - 1] == before.last());
                        assert(out@[j] == v@[i as int]);
                    }
                }
            }
        } else {
            proof {
                assert forall|k: int| #![trigger v@[k]] 0 <= k < i + 1 implies exists|j: int| #![trigger out@[j]] 0 <= j < out@.len() && out@[j].same_item(&v@[k]) by {
                    if k == i {
                        assert(out@[out@.len() - 1].same_item(&v@[k]));
                    }
                }
            }
        }
        i = i + 1;
    }
    proof {
        assert forall|j: int| #![trigger out@[j]] 0 <= j < out@.len() implies exists|k: int| #![trigger v@[k]] 0 <= k < v@.len() && out@[j] == v@[k] by {
            assert(out@[j] == v@[idx[j]]);
        }
        if sorted_by_key(v@) {
            assert forall|a: int, b: int| 0 <= a < b < out@.len() implies !key_lt(
                #[trigger] out@[b].sort_key(),
                #[trigger] out@[a].sort_key(),
            ) by {
                assert(idx[a] < idx[b]);
                assert(out@[a] == v@[idx[a]] && out@[b] == v@[idx[b]]);
            }
        }
    }
    out
}

/// The keys of a list of items, in order.
pub open spec fn keys_of<T: Keyed>(s: Seq<T>) -> Seq<KeyView> {
    s.map_values(|x: T| x.sort_key())
}

/// Each key sorts strictly before every later one.
pub open spec fn strictly_ascending(s: Seq<KeyView>) -> bool {
    forall|i: int, j: int| 0 <= i < j < s.len() ==> key_lt(#[trigger] s[i], #[trigger] s[j])
}

/// A list in key order with no two neighbours holding the same values has
/// strictly ascending keys, when equal keys mean the same values.
pub proof fn lemma_ascending_keys<T: Keyed>(a: Seq<T>)
    requires
        sorted_by_key(a),
        forall|j: int| 0 < j < a.len() ==> !(#[trigger] a[j - 1]).same_item(&a[j]),
        forall|x: T, y: T| #[trigger] x.sort_key() == #[trigger] y.sort_key() ==> x.same_item(&y),
    ensures
        strictly_ascending(keys_of(a)),
{
    let k = keys_of(a);
    assert forall|i: int, j: int| 0 <= i < j < k.len() implies key_lt(#[trigger] k[i], #[trigger] k[j]) by {
        assert(k[i] == a[i].sort_key());
        assert(k[j] == a[j].sort_key());
        let m = a[i + 1].sort_key();
        lemma_key_order(k[i], m, k[j]);
        lemma_key_order(m, k[j], k[i]);
        lemma_key_order(k[i], k[j], m);
        assert(!key_lt(m, k[i]));
        if j > i + 1 {
            assert(!key_lt(k[j], m));
        }
        let j1 = i + 1;
        assert(!a[j1 - 1].same_item(&a[j1]));
        assert(j1 - 1 == i);
        assert(k[i] != m);
    }
}

/// Two lists of strictly ascending keys holding the same keys are equal.
pub proof fn lemma_ascending_unique(s: Seq<KeyView>, t: Seq<KeyView>)
    requires
        strictly_ascending(s),
        strictly_ascending(t),
        forall|x: KeyView| s.contains(x) == t.contains(x),
    ensures
        s == t,
    decreases s.len(),
{
    if s.len() == 0 {
        if t.len() > 0 {
            assert(t.contains(t[0]));
        }
        assert(s =~= t);
    } else {
        assert(s.contains(s[0]));
        assert(t.contains(s[0]));
        let kt = choose|k: int| 0 <= k < t.len() && t[k] == s[0];
        assert(t.contains(t[0]));
        let ks = choose|k: int| 0 <= k < s.len() && s[k] == t[0];
        lemma_key_order(s[0], s[0], s[0]);
        lemma_key_order(s[0], t[0], s[0]);
        if kt > 0 {
            assert(key_lt(t[0], t[kt]));
            if ks > 0 {
                assert(key_lt(s[0], s[ks]));
            }
        }
        assert(t[0] == s[0]);
        let s1 = s.drop_first();
        let t1 = t.drop_first();
        assert forall|i: int, j: int| 0 <= i < j < s1.len() implies key_lt(#[trigger] s1[i], #[trigger] s1[j]) by {
            assert(s1[i] == s[i + 1] && s1[j] == s[j + 1]);
        }
        assert forall|i: int, j: int| 0 <= i < j < t1.len() implies key_lt(#[trigger] t1[i], #[trigger] t1[j]) by {
            assert(t1[i] == t[i + 1] && t1[j] == t[j + 1]);
        }
        assert forall|x: KeyView| s1.contains(x) == t1.contains(x) by {
            if s1.contains(x) {
                let i = choose|i: int| 0 <= i < s1.len() && s1[i] == x;
                assert(s[i + 1] == x);
                assert(key_lt(s[0], x));
                assert(s.contains(x));
                assert(t.contains(x));
                let j = choose|j: int| 0 <= j < t.len() && t[j] == x;
                if j == 0 {
                    lemma_key_order(x, x, x);
                }
                assert(t1[j - 1] == x);
            }
            if t1.contains(x) {
                let i = choose|i: int| 0 <= i < t1.len() && t1[i] == x;
                assert(t[i + 1] == x);
                assert(key_lt(t[0], x));
                assert(t.contains(x));
                assert(s.contains(x));
                let j = choose|j: int| 0 <= j < s.len() && s[j] == x;
                if j == 0 {
                    lemma_key_order(x, x, x);
                }
                assert(s1[j - 1] == x);
            }
        }
        lemma_ascending_unique(s1, t1);
        assert(s =~= seq![s[0]] + s1);
        assert(t =~= seq![t[0]] + t1);
    }
}

} // verus!
