//! The table: a fixed sequence of buckets, each key routed to the bucket at
//! `hash(key) % capacity`.
use crate::bucket::Bucket;
use crate::key::TableKey;
use vstd::prelude::*;

verus! {

/// Number of buckets of a table made by `MyHashmap::new`.
pub const DEFAULT_SIZE: u64 = 256;

/// The value a lookup hands out, as a plain `Option`.
pub open spec fn looked_up<V>(r: Option<&V>) -> Option<V> {
    match r {
        Some(v) => Some(*v),
        None => None,
    }
}

/// What a map holds under `k`.
pub open spec fn map_get<K, V>(m: Map<K, V>, k: K) -> Option<V> {
    if m.contains_key(k) {
        Some(m[k])
    } else {
        None
    }
}

/// The bucket that a key with view `k` belongs to, in a table of `capacity` buckets.
pub open spec fn bucket_of<K: TableKey>(k: K::V, capacity: nat) -> int
    recommends
        capacity > 0,
{
    (K::spec_hash(k) as nat % capacity) as int
}

/// A fixed-capacity hash table with separate chaining.
pub struct MyHashmap<K, V> {
    /// Number of buckets; fixed for the table's lifetime.
    size: u64,
    hash_elements: Vec<Bucket<K, V>>,
}

impl<K: TableKey, V> View for MyHashmap<K, V> {
    type V = Map<K::V, V>;

    /// Each key view mapped to what its own bucket holds for it.
    closed spec fn view(&self) -> Map<K::V, V> {
        Map::new(
            |k: K::V| self.hash_elements@[bucket_of::<K>(k, self.size as nat)]@.contains_key(k),
            |k: K::V| self.hash_elements@[bucket_of::<K>(k, self.size as nat)]@[k],
        )
    }
}

/// `n` empty, well-formed buckets.
fn empty_buckets<K: TableKey, V>(n: u64) -> (r: Vec<Bucket<K, V>>)
    ensures
        r@.len() == n,
        forall|i: int| 0 <= i < n ==> (#[trigger] r@[i]).wf() && r@[i]@ == Map::<K::V, V>::empty(),
{
    let mut r: Vec<Bucket<K, V>> = Vec::new();
    let mut i: u64 = 0;
    while i < n
        invariant
            i <= n,
            r@.len() == i,
            forall|j: int| 0 <= j < i ==> (#[trigger] r@[j]).wf() && r@[j]@ == Map::<K::V, V>::empty(),
        decreases n - i,
    {
        r.push(Bucket::new());
        i = i + 1;
    }
    r
}

impl<K: TableKey, V> MyHashmap<K, V> {
    /// The number of buckets.
    pub closed spec fn capacity(&self) -> nat {
        self.size as nat
    }

    /// At least one bucket, one bucket per index, every chain well formed, and
    /// every key stored in the bucket its hash routes it to.
    pub closed spec fn wf(&self) -> bool {
        &&& self.size >= 1
        &&& self.hash_elements@.len() == self.size
        &&& forall|i: int| 0 <= i < self.hash_elements@.len() ==> (#[trigger] self.hash_elements@[i]).wf()
        &&& forall|i: int, k: K::V|
            0 <= i < self.hash_elements@.len() && #[trigger] self.hash_elements@[i]@.contains_key(k)
                ==> bucket_of::<K>(k, self.size as nat) == i
    }

    /// A table of `DEFAULT_SIZE` empty buckets.
    pub fn new() -> (r: Self)
        ensures
            r.wf(),
            r@ == Map::<K::V, V>::empty(),
            r.capacity() == DEFAULT_SIZE,
    {
        Self::with_capacity(DEFAULT_SIZE)
    }

    /// A table of `size` empty buckets; a zero capacity is a contract violation.
    pub fn with_capacity(size: u64) -> (r: Self)
        requires
            size >= 1,
        ensures
            r.wf(),
            r@ == Map::<K::V, V>::empty(),
            r.capacity() == size,
    {
        let r = MyHashmap { size, hash_elements: empty_buckets(size) };
        assert(r@ =~= Map::<K::V, V>::empty());
        r
    }

    /// The index of the bucket that `key` belongs to.
    fn bucket_index(&self, key: &K) -> (r: usize)
        requires
            self.wf(),
        ensures
            r == bucket_of::<K>(key@, self.size as nat),
            r < self.hash_elements@.len(),
    {
        let h: u64 = key.hash_key();
        let n: usize = self.hash_elements.len();
        let i: u64 = h % self.size;
        assert(i < n);
        i as usize
    }

    /// Stores `value` under `key`, overwriting the value of an equal key.
    pub fn insert(&mut self, key: K, value: V)
        requires
            old(self).wf(),
        ensures
            final(self).wf(),
            final(self)@ == old(self)@.insert(key@, value),
            final(self).capacity() == old(self).capacity(),
    {
        let idx: usize = self.bucket_index(&key);
        let ghost kv = key@;
        self.hash_elements[idx].insert(key, value);
        proof {
            let ghost o = old(self).hash_elements@;
            let ghost n = self.hash_elements@;
            assert forall|i: int, k: K::V|
                0 <= i < n.len() && #[trigger] n[i]@.contains_key(k)
                    implies bucket_of::<K>(k, self.size as nat) == i by {
                if i != idx as int {
                    assert(o[i] == n[i]);
                }
            }
            assert(self@ =~= old(self)@.insert(kv, value)) by {
                assert forall|k: K::V| #[trigger] self@.contains_key(k) == old(self)@.insert(kv, value).contains_key(k) by {
                    let b = bucket_of::<K>(k, self.size as nat);
                    if b != idx as int {
                        assert(o[b] == n[b]);
                    }
                }
            }
        }
    }

    /// The value stored under `key`, if any.
    pub fn get(&self, key: K) -> (r: Option<&V>)
        requires
            self.wf(),
        ensures
            looked_up(r) == map_get(self@, key@),
    {
        let idx: usize = self.bucket_index(&key);
        self.hash_elements[idx].find(key)
    }

    /// Empties every bucket; the capacity stays as it was.
    pub fn clear(&mut self)
        requires
            old(self).wf(),
        ensures
            final(self).wf(),
            final(self)@ == Map::<K::V, V>::empty(),
            final(self).capacity() == old(self).capacity(),
    {
        self.hash_elements.clear();
        self.hash_elements = empty_buckets(self.size);
        assert(self@ =~= Map::<K::V, V>::empty());
    }

    /// Removes the entry of `key`; a key that is absent leaves the table as it is.
    pub fn remove(&mut self, key: K)
        requires
            old(self).wf(),
        ensures
            final(self).wf(),
            final(self)@ == old(self)@.remove(key@),
            final(self).capacity() == old(self).capacity(),
    {
        let idx: usize = self.bucket_index(&key);
        let ghost kv = key@;
        self.hash_elements[idx].remove(key);
        proof {
            let ghost o = old(self).hash_elements@;
            let ghost n = self.hash_elements@;
            assert forall|i: int, k: K::V|
                0 <= i < n.len() && #[trigger] n[i]@.contains_key(k)
                    implies bucket_of::<K>(k, self.size as nat) == i by {
                if i != idx as int {
                    assert(o[i] == n[i]);
                } else {
                    assert(o[i]@.contains_key(k));
                }
            }
            assert(self@ =~= old(self)@.remove(kv)) by {
                assert forall|k: K::V| #[trigger] self@.contains_key(k) == old(self)@.remove(kv).contains_key(k) by {
                    let b = bucket_of::<K>(k, self.size as nat);
                    if b != idx as int {
                        assert(o[b] == n[b]);
                    }
                }
            }
        }
    }
}

} // verus!
