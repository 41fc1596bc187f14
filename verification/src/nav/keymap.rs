//! A small map from string keys to values, kept as a list of entries with
//! distinct keys (the index's name- and file-keyed tables).

use vstd::prelude::*;

verus! {

/// The keys of a list of entries, in order.
pub open spec fn keys_of<V>(es: Seq<(String, V)>) -> Seq<Seq<char>> {
    es.map_values(|e: (String, V)| e.0@)
}

/// The map held by a list of entries (a later entry wins over an earlier
/// one with the same key).
pub open spec fn map_of<V>(es: Seq<(String, V)>) -> Map<Seq<char>, V>
    decreases es.len(),
{
    if es.len() == 0 {
        Map::empty()
    } else {
        map_of(es.drop_last()).insert(es.last().0@, es.last().1)
    }
}

pub proof fn lemma_map_of_dom<V>(es: Seq<(String, V)>)
    ensures
        forall|k: Seq<char>|
            #![trigger map_of(es).contains_key(k)]
            #![trigger keys_of(es).contains(k)]
            map_of(es).contains_key(k) <==> keys_of(es).contains(k),
    decreases es.len(),
{
    if es.len() > 0 {
        let q = es.drop_last();
        let n = es.len() - 1;
        lemma_map_of_dom(q);
        assert forall|k: Seq<char>| map_of(es).contains_key(k) implies keys_of(es).contains(k) by {
            if k == es.last().0@ {
                assert(keys_of(es)[n] == k);
            } else {
                assert(map_of(q).contains_key(k));
                assert(keys_of(q).contains(k));
                let i = choose|i: int| 0 <= i < keys_of(q).len() && keys_of(q)[i] == k;
                assert(q[i] == es[i]);
                assert(keys_of(es)[i] == k);
            }
        }
        assert forall|k: Seq<char>| keys_of(es).contains(k) implies map_of(es).contains_key(k) by {
            let i = choose|i: int| 0 <= i < keys_of(es).len() && keys_of(es)[i] == k;
            if i < n {
                assert(q[i] == es[i]);
                assert(keys_of(q)[i] == k);
                assert(keys_of(q).contains(k));
            }
        }
    }
}

pub proof fn lemma_map_of_get<V>(es: Seq<(String, V)>, i: int)
    requires
        keys_of(es).no_duplicates(),
        0 <= i < es.len(),
    ensures
        map_of(es).contains_key(es[i].0@),
        map_of(es)[es[i].0@] == es[i].1,
    decreases es.len(),
{
    if i < es.len() - 1 {
        let q = es.drop_last();
        assert(keys_of(q) =~= keys_of(es).drop_last());
        lemma_map_of_get(q, i);
        assert(keys_of(es)[i] != keys_of(es)[es.len() - 1]);
    }
}

pub proof fn lemma_map_of_len<V>(es: Seq<(String, V)>)
    requires
        keys_of(es).no_duplicates(),
    ensures
        map_of(es).dom().finite(),
        map_of(es).dom().len() == es.len(),
    decreases es.len(),
{
    if es.len() > 0 {
        let q = es.drop_last();
        assert(keys_of(q) =~= keys_of(es).drop_last());
        lemma_map_of_len(q);
        lemma_map_of_dom(q);
        assert(!keys_of(q).contains(es.last().0@)) by {
            if keys_of(q).contains(es.last().0@) {
                let i = choose|i: int| 0 <= i < keys_of(q).len() && keys_of(q)[i] == es.last().0@;
                assert(keys_of(es)[i] == keys_of(es)[es.len() - 1]);
            }
        }
    }
}

pub proof fn lemma_map_of_update<V>(es: Seq<(String, V)>, i: int, k: String, v: V)
    requires
        keys_of(es).no_duplicates(),
        0 <= i < es.len(),
        k@ == es[i].0@,
    ensures
        keys_of(es.update(i, (k, v))) == keys_of(es),
        map_of(es.update(i, (k, v))) == map_of(es).insert(k@, v),
    decreases es.len(),
{
    let u = es.update(i, (k, v));
    assert(keys_of(u) =~= keys_of(es));
    if i < es.len() - 1 {
        let q = es.drop_last();
        assert(keys_of(q) =~= keys_of(es).drop_last());
        lemma_map_of_update(q, i, k, v);
        assert(u.drop_last() =~= q.update(i, (k, v)));
        assert(keys_of(es)[i] != keys_of(es)[es.len() - 1]);
        assert(map_of(u) =~= map_of(es).insert(k@, v));
    } else {
        assert(u.drop_last() =~= es.drop_last());
        assert(map_of(u) =~= map_of(es).insert(k@, v));
    }
}

pub proof fn lemma_map_of_push<V>(es: Seq<(String, V)>, k: String, v: V)
    requires
        keys_of(es).no_duplicates(),
        !keys_of(es).contains(k@),
    ensures
        keys_of(es.push((k, v))) == keys_of(es).push(k@),
        keys_of(es.push((k, v))).no_duplicates(),
        map_of(es.push((k, v))) == map_of(es).insert(k@, v),
{
    let u = es.push((k, v));
    assert(keys_of(u) =~= keys_of(es).push(k@));
    assert(u.drop_last() =~= es);
    assert forall|a: int, b: int| 0 <= a < b < keys_of(u).len() implies keys_of(u)[a] != keys_of(u)[b] by {
        if b == es.len() {
            assert(keys_of(es)[a] == keys_of(u)[a]);
        }
    }
}

pub proof fn lemma_map_of_remove<V>(es: Seq<(String, V)>, i: int)
    requires
        keys_of(es).no_duplicates(),
        0 <= i < es.len(),
    ensures
        keys_of(es.remove(i)) == keys_of(es).remove(i),
        keys_of(es.remove(i)).no_duplicates(),
        map_of(es.remove(i)) == map_of(es).remove(es[i].0@),
    decreases es.len(),
{
    let u = es.remove(i);
    let k = es[i].0@;
    assert(keys_of(u) =~= keys_of(es).remove(i));
    assert forall|a: int, b: int| 0 <= a < b < keys_of(u).len() implies keys_of(u)[a] != keys_of(u)[b] by {
        let ea = if a < i { a } else { a + 1 };
        let eb = if b < i { b } else { b + 1 };
        assert(keys_of(u)[a] == keys_of(es)[ea]);
        assert(keys_of(u)[b] == keys_of(es)[eb]);
    }
    let q = es.drop_last();
    assert(keys_of(q) =~= keys_of(es).drop_last());
    if i == es.len() - 1 {
        assert(u =~= q);
        lemma_map_of_dom(q);
        assert(!keys_of(q).contains(k)) by {
            if keys_of(q).contains(k) {
                let j = choose|j: int| 0 <= j < keys_of(q).len() && keys_of(q)[j] == k;
                assert(keys_of(es)[j] == keys_of(es)[i]);
            }
        }
        assert(map_of(u) =~= map_of(es).remove(k));
    } else {
        lemma_map_of_remove(q, i);
        assert(u.drop_last() =~= q.remove(i));
        assert(u.last() == es.last());
        assert(keys_of(es)[i] != keys_of(es)[es.len() - 1]);
        assert(map_of(u) =~= map_of(es).remove(k));
    }
}

/// A map from string keys to values, kept as entries with distinct keys in
/// insertion order.
#[derive(Clone, Debug)]
pub struct KeyMap<V> {
    entries: Vec<(String, V)>,
}

impl<V> View for KeyMap<V> {
    type V = Map<Seq<char>, V>;

    closed spec fn view(&self) -> Map<Seq<char>, V> {
        map_of(self.entries@)
    }
}

impl<V> KeyMap<V> {
    /// No key occurs twice.
    pub closed spec fn wf(&self) -> bool {
        keys_of(self.entries@).no_duplicates()
    }

    /// The entries in storage order.
    pub closed spec fn entries_seq(&self) -> Seq<(String, V)> {
        self.entries@
    }

    /// The entries list exactly the map, each key once.
    pub proof fn lemma_entries(&self)
        requires
            self.wf(),
        ensures
            self@.dom().finite(),
            self@.dom().len() == self.entries_seq().len(),
            keys_of(self.entries_seq()).no_duplicates(),
            self@ == map_of(self.entries_seq()),
            forall|i: int|
                #![trigger self.entries_seq()[i]]
                0 <= i < self.entries_seq().len() ==> self@.contains_key(self.entries_seq()[i].0@)
                    && self@[self.entries_seq()[i].0@] == self.entries_seq()[i].1,
            forall|k: Seq<char>|
                #![trigger self@.contains_key(k)]
                self@.contains_key(k) ==> exists|i: int|
                    0 <= i < self.entries_seq().len() && #[trigger] self.entries_seq()[i].0@ == k,
    {
        let es = self.entries@;
        lemma_map_of_len(es);
        lemma_map_of_dom(es);
        assert forall|i: int| #![trigger es[i]] 0 <= i < es.len() implies map_of(es).contains_key(es[i].0@)
            && map_of(es)[es[i].0@] == es[i].1 by {
            lemma_map_of_get(es, i);
        }
        assert forall|k: Seq<char>| #![trigger map_of(es).contains_key(k)] map_of(es).contains_key(k) implies exists|i: int|
            0 <= i < es.len() && #[trigger] es[i].0@ == k by {
            assert(keys_of(es).contains(k));
            let i = choose|i: int| 0 <= i < keys_of(es).len() && keys_of(es)[i] == k;
            assert(es[i].0@ == k);
        }
    }

    /// An empty map.
    pub fn new() -> (m: Self)
        ensures
            m.wf(),
            m@ == Map::<Seq<char>, V>::empty(),
            m.entries_seq().len() == 0,
    {
        let m = KeyMap { entries: Vec::new() };
        assert(m@ =~= Map::<Seq<char>, V>::empty());
        m
    }

    /// The number of keys.
    pub fn len(&self) -> (n: usize)
        requires
            self.wf(),
        ensures
            n == self@.dom().len(),
            n == self.entries_seq().len(),
    {
        proof {
            lemma_map_of_len(self.entries@);
        }
        self.entries.len()
    }

    /// Whether no key is held.
    pub fn is_empty(&self) -> (b: bool)
        requires
            self.wf(),
        ensures
            b == (self@.dom().len() == 0),
            b == (self@ == Map::<Seq<char>, V>::empty()),
    {
        proof {
            lemma_map_of_len(self.entries@);
            if self.entries@.len() == 0 {
                assert(self@ =~= Map::<Seq<char>, V>::empty());
            } else {
                lemma_map_of_get(self.entries@, 0);
                assert(!(self@ =~= Map::<Seq<char>, V>::empty()));
            }
        }
        self.entries.len() == 0
    }

    /// The position of `key` among the entries.
    pub fn index_of(&self, key: &str) -> (r: Option<usize>)
        requires
            self.wf(),
        ensures
            match r {
                Some(i) => i < self.entries_seq().len() && self.entries_seq()[i as int].0@ == key@
                    && self@.contains_key(key@) && self@[key@] == self.entries_seq()[i as int].1,
                None => !self@.contains_key(key@),
            },
    {
        let mut i: usize = 0;
        while i < self.entries.len()
            invariant
                self.wf(),
                i <= self.entries@.len(),
                forall|j: int| 0 <= j < i ==> self.entries@[j].0@ != key@,
            decreases self.entries@.len() - i,
        {
            if crate::text::str_eq(self.entries[i].0.as_str(), key) {
                proof {
                    lemma_map_of_get(self.entries@, i as int);
                }
                return Some(i);
            }
            i = i + 1;
        }
        proof {
            lemma_map_of_dom(self.entries@);
            if keys_of(self.entries@).contains(key@) {
                let j = choose|j: int| 0 <= j < keys_of(self.entries@).len() && keys_of(self.entries@)[j] == key@;
                assert(self.entries@[j].0@ == key@);
            }
        }
        None
    }

    /// Whether `key` is held.
    pub fn contains_key(&self, key: &str) -> (b: bool)
        requires
            self.wf(),
        ensures
            b == self@.contains_key(key@),
    {
        self.index_of(key).is_some()
    }

    /// The value of `key`.
    pub fn get(&self, key: &str) -> (r: Option<&V>)
        requires
            self.wf(),
        ensures
            match r {
                Some(v) => self@.contains_key(key@) && *v == self@[key@],
                None => !self@.contains_key(key@),
            },
    {
        match self.index_of(key) {
            Some(i) => Some(&self.entries[i].1),
            None => None,
        }
    }

    /// The entry at position `i` of the storage order.
    pub fn entry_at(&self, i: usize) -> (e: &(String, V))
        requires
            i < self.entries_seq().len(),
        ensures
            *e == self.entries_seq()[i as int],
    {
        &self.entries[i]
    }

    /// Set `key` to `v` (in place when held, else appended).
    pub fn insert(&mut self, key: String, v: V)
        requires
            old(self).wf(),
        ensures
            final(self).wf(),
            final(self)@ == old(self)@.insert(key@, v),
    {
        match self.index_of(key.as_str()) {
            Some(i) => {
                let ghost es = self.entries@;
                proof {
                    lemma_map_of_update(es, i as int, key, v);
                }
                self.entries.set(i, (key, v));
            },
            None => {
                let ghost es = self.entries@;
                proof {
                    lemma_map_of_dom(es);
                    lemma_map_of_push(es, key, v);
                }
                self.entries.push((key, v));
            },
        }
    }

    /// Take `key` out; its value when it was held.
    pub fn remove(&mut self, key: &str) -> (r: Option<V>)
        requires
            old(self).wf(),
        ensures
            final(self).wf(),
            final(self)@ == old(self)@.remove(key@),
            match r {
                Some(v) => old(self)@.contains_key(key@) && v == old(self)@[key@],
                None => !old(self)@.contains_key(key@),
            },
    {
        match self.index_of(key) {
            Some(i) => {
                let ghost es = self.entries@;
                proof {
                    lemma_map_of_remove(es, i as int);
                }
                let (_, v) = self.entries.remove(i);
                Some(v)
            },
            None => {
                proof {
                    assert(self@.remove(key@) =~= self@);
                }
                None
            },
        }
    }
}

} // verus!
