//! One slot of the table: a chain of key/value entries with pairwise distinct keys.
//!
//! The chain is kept in a `Vec` in insertion order, so "next" is simply the
//! following slot; removal closes the gap instead of splicing links.
use crate::key::TableKey;
use vstd::prelude::*;

verus! {

/// One entry of a chain.
pub struct KeyValue<K, V> {
    pub key: K,
    pub value: V,
}

impl<K, V> KeyValue<K, V> {
    pub fn new(key: K, value: V) -> (r: Self)
        ensures
            r.key == key,
            r.value == value,
    {
        KeyValue { key, value }
    }
}

/// The chain of entries that share one bucket index.
pub struct Bucket<K, V> {
    entries: Vec<KeyValue<K, V>>,
}

impl<K: TableKey, V> View for Bucket<K, V> {
    type V = Map<K::V, V>;

    /// The key view of each entry, mapped to that entry's value.
    closed spec fn view(&self) -> Map<K::V, V> {
        Map::new(
            |k: K::V| exists|i: int| 0 <= i < self.entries@.len() && #[trigger] self.entries@[i].key@ == k,
            |k: K::V|
                self.entries@[choose|i: int|
                    0 <= i < self.entries@.len() && #[trigger] self.entries@[i].key@ == k].value,
        )
    }
}

impl<K: TableKey, V> Bucket<K, V> {
    /// No two entries of the chain carry equal keys.
    pub closed spec fn wf(&self) -> bool {
        forall|i: int, j: int|
            0 <= i < self.entries@.len() && 0 <= j < self.entries@.len() && i != j
                ==> #[trigger] self.entries@[i].key@ != #[trigger] self.entries@[j].key@
    }

    proof fn lemma_entry_in_view(&self, i: int)
        requires
            self.wf(),
            0 <= i < self.entries@.len(),
        ensures
            self@.contains_key(self.entries@[i].key@),
            self@[self.entries@[i].key@] == self.entries@[i].value,
    {
        let k = self.entries@[i].key@;
        assert(self.entries@[i].key@ == k);
        let j = choose|j: int| 0 <= j < self.entries@.len() && #[trigger] self.entries@[j].key@ == k;
        assert(j == i);
    }

    pub fn new() -> (r: Self)
        ensures
            r.wf(),
            r@ == Map::<K::V, V>::empty(),
    {
        let r = Bucket { entries: Vec::new() };
        assert(r@ =~= Map::<K::V, V>::empty());
        r
    }

    /// The position of `key` in the chain, if it is there.
    fn position(&self, key: &K) -> (r: Option<usize>)
        requires
            self.wf(),
        ensures
            match r {
                Some(i) => i < self.entries@.len() && self.entries@[i as int].key@ == key@,
                None => forall|i: int| 0 <= i < self.entries@.len() ==> #[trigger] self.entries@[i].key@ != key@,
            },
    {
        let mut i: usize = 0;
        while i < self.entries.len()
            invariant
                i <= self.entries@.len(),
                forall|j: int| 0 <= j < i ==> #[trigger] self.entries@[j].key@ != key@,
            decreases self.entries@.len() - i,
        {
            if self.entries[i].key.same_key(key) {
                return Some(i);
            }
            i = i + 1;
        }
        None
    }

    /// The value stored under `key`, if any.
    pub fn find(&self, key: K) -> (r: Option<&V>)
        requires
            self.wf(),
        ensures
            r == (if self@.contains_key(key@) { Some(&self@[key@]) } else { None }),
    {
        match self.position(&key) {
            Some(i) => {
                proof { self.lemma_entry_in_view(i as int); }
                Some(&self.entries[i].value)
            },
            None => None,
        }
    }

    /// Stores `value` under `key`: an entry with an equal key has its value
    /// overwritten in place; otherwise a new entry is appended at the tail.
    pub fn insert(&mut self, key: K, value: V)
        requires
            old(self).wf(),
        ensures
            final(self).wf(),
            final(self)@ == old(self)@.insert(key@, value),
    {
        match self.position(&key) {
            Some(i) => {
                self.entries[i].value = value;
                proof {
                    let ghost o = old(self).entries@;
                    let ghost n = self.entries@;
                    assert forall|j: int| 0 <= j < n.len() implies #[trigger] n[j].key@ == o[j].key@ by {}
                    assert forall|k: K::V| #[trigger] self@.contains_key(k) <==> old(self)@.insert(key@, value).contains_key(k) by {
                        if k == key@ {
                            self.lemma_entry_in_view(i as int);
                        } else if old(self)@.contains_key(k) {
                            let j = choose|j: int| 0 <= j < o.len() && #[trigger] o[j].key@ == k;
                            self.lemma_entry_in_view(j);
                        } else if self@.contains_key(k) {
                            let j = choose|j: int| 0 <= j < n.len() && #[trigger] n[j].key@ == k;
                            assert(o[j].key@ == k);
                        }
                    }
                    assert forall|k: K::V| #[trigger] self@.contains_key(k) implies self@[k] == old(self)@.insert(key@, value)[k] by {
                        if k == key@ {
                            self.lemma_entry_in_view(i as int);
                        } else {
                            let j = choose|j: int| 0 <= j < n.len() && #[trigger] n[j].key@ == k;
                            assert(o[j].key@ == k);
                            self.lemma_entry_in_view(j);
                            old(self).lemma_entry_in_view(j);
                        }
                    }
                    assert(self@ =~= old(self)@.insert(key@, value));
                }
            },
            None => {
                let ghost kv = key@;
                self.entries.push(KeyValue::new(key, value));
                proof {
                    let ghost o = old(self).entries@;
                    let ghost n = self.entries@;
                    let ghost last = o.len() as int;
                    assert(n[last].key@ == kv);
                    assert forall|j: int| 0 <= j < o.len() implies #[trigger] n[j] == o[j] by {}
                    assert forall|k: K::V| #[trigger] self@.contains_key(k) <==> old(self)@.insert(kv, value).contains_key(k) by {
                        if k == kv {
                            self.lemma_entry_in_view(last);
                        } else if old(self)@.contains_key(k) {
                            let j = choose|j: int| 0 <= j < o.len() && #[trigger] o[j].key@ == k;
                            assert(n[j].key@ == k);
                        } else if self@.contains_key(k) {
                            let j = choose|j: int| 0 <= j < n.len() && #[trigger] n[j].key@ == k;
                            assert(o[j].key@ == k);
                        }
                    }
                    assert forall|k: K::V| #[trigger] self@.contains_key(k) implies self@[k] == old(self)@.insert(kv, value)[k] by {
                        if k == kv {
                            self.lemma_entry_in_view(last);
                        } else {
                            let j = choose|j: int| 0 <= j < n.len() && #[trigger] n[j].key@ == k;
                            assert(o[j].key@ == k);
                            self.lemma_entry_in_view(j);
                            old(self).lemma_entry_in_view(j);
                        }
                    }
                    assert(self@ =~= old(self)@.insert(kv, value));
                }
            },
        }
    }

    /// Unlinks the entry whose key equals `key`; leaves the chain unchanged when
    /// there is none.
    pub fn remove(&mut self, key: K)
        requires
            old(self).wf(),
        ensures
            final(self).wf(),
            final(self)@ == old(self)@.remove(key@),
    {
        match self.position(&key) {
            Some(i) => {
                self.entries.remove(i);
                proof {
                    let ghost o = old(self).entries@;
                    let ghost n = self.entries@;
                    let ghost at = i as int;
                    assert forall|j: int| 0 <= j < n.len() implies #[trigger] n[j] == o[if j < at { j } else { j + 1 }] by {}
                    assert forall|k: K::V| #[trigger] self@.contains_key(k) <==> old(self)@.remove(key@).contains_key(k) by {
                        if self@.contains_key(k) {
                            let j = choose|j: int| 0 <= j < n.len() && #[trigger] n[j].key@ == k;
                            let oj = if j < at { j } else { j + 1 };
                            assert(o[oj].key@ == k);
                            assert(k != key@);
                        } else if old(self)@.contains_key(k) && k != key@ {
                            let j = choose|j: int| 0 <= j < o.len() && #[trigger] o[j].key@ == k;
                            let nj = if j < at { j } else { j - 1 };
                            assert(n[nj].key@ == k);
                        }
                    }
                    assert forall|k: K::V| #[trigger] self@.contains_key(k) implies self@[k] == old(self)@.remove(key@)[k] by {
                        let j = choose|j: int| 0 <= j < n.len() && #[trigger] n[j].key@ == k;
                        let oj = if j < at { j } else { j + 1 };
                        assert(o[oj].key@ == k);
                        self.lemma_entry_in_view(j);
                        old(self).lemma_entry_in_view(oj);
                    }
                    assert(self@ =~= old(self)@.remove(key@));
                }
            },
            None => {
                proof {
                    assert forall|k: K::V| #[trigger] self@.contains_key(k) implies k != key@ by {
                        let j = choose|j: int| 0 <= j < self.entries@.len() && #[trigger] self.entries@[j].key@ == k;
                    }
                    assert(self@ =~= old(self)@.remove(key@));
                }
            },
        }
    }
}

} // verus!
