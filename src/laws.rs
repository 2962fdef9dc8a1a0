//! Laws of the table, stated over the map view that the operations' contracts
//! speak of: `insert` turns `t@` into `t@.insert(k, v)`, `remove` into
//! `t@.remove(k)`, and `get` returns `map_get(t@, k)`.
use crate::hashmap::{map_get, MyHashmap};
use crate::key::TableKey;
use vstd::prelude::*;

verus! {

/// The map that results from inserting `pairs` into `m`, first pair first.
pub open spec fn insert_all<K, V>(m: Map<K, V>, pairs: Seq<(K, V)>) -> Map<K, V>
    decreases pairs.len(),
{
    if pairs.len() == 0 {
        m
    } else {
        insert_all(m, pairs.drop_last()).insert(pairs.last().0, pairs.last().1)
    }
}

/// No key occurs in `pairs` with two different values.
pub open spec fn keys_agree<K, V>(pairs: Set<(K, V)>) -> bool {
    forall|p: (K, V), q: (K, V)|
        #[trigger] pairs.contains(p) && #[trigger] pairs.contains(q) && p.0 == q.0 ==> p.1 == q.1
}

/// After inserting `v` under `k`, a lookup of `k` returns `v`.
pub proof fn law_insert_then_get<K: TableKey, V>(t: MyHashmap<K, V>, k: K::V, v: V)
    requires
        t.wf(),
    ensures
        map_get(t@.insert(k, v), k) == Some(v),
{
}

/// Inserting `v2` under a key that already holds `v1` leaves `v2` there and
/// keeps the set of keys, hence the number of entries.
pub proof fn law_overwrite<K: TableKey, V>(t: MyHashmap<K, V>, k: K::V, v1: V, v2: V)
    requires
        t.wf(),
    ensures
        map_get(t@.insert(k, v1).insert(k, v2), k) == Some(v2),
        t@.insert(k, v1).insert(k, v2).dom() == t@.insert(k, v1).dom(),
        t@.insert(k, v1).insert(k, v2).len() == t@.insert(k, v1).len(),
{
    assert(t@.insert(k, v1).insert(k, v2).dom() =~= t@.insert(k, v1).dom());
}

/// After inserting a key and removing it again, a lookup of it finds nothing.
pub proof fn law_remove_then_get<K: TableKey, V>(t: MyHashmap<K, V>, k: K::V, v: V)
    requires
        t.wf(),
    ensures
        map_get(t@.insert(k, v).remove(k), k) == None::<V>,
{
}

/// Removing a key that is absent leaves the table as it was; in particular an
/// empty table stays empty.
pub proof fn law_remove_absent_is_noop<K: TableKey, V>(t: MyHashmap<K, V>, k: K::V)
    requires
        t.wf(),
        !t@.contains_key(k),
    ensures
        t@.remove(k) == t@,
        t@ == Map::<K::V, V>::empty() ==> t@.remove(k) == Map::<K::V, V>::empty(),
{
    assert(t@.remove(k) =~= t@);
}

/// Inserting or removing one key leaves what every other key holds unchanged,
/// whatever the capacity and however many keys share a bucket.
pub proof fn law_other_keys_undisturbed<K: TableKey, V>(t: MyHashmap<K, V>, k: K::V, v: V, other: K::V)
    requires
        t.wf(),
        k != other,
    ensures
        map_get(t@.insert(k, v), other) == map_get(t@, other),
        map_get(t@.remove(k), other) == map_get(t@, other),
{
}

/// Whatever was inserted before, a cleared table (whose view `clear` makes
/// empty) holds none of those keys, and a key inserted afterwards is found.
pub proof fn law_clear_empties_everything<K: TableKey, V>(
    t: MyHashmap<K, V>,
    pairs: Seq<(K::V, V)>,
    k: K::V,
    v: V,
)
    requires
        t.wf(),
    ensures
        forall|i: int| 0 <= i < pairs.len() ==> map_get(Map::<K::V, V>::empty(), #[trigger] pairs[i].0) == None::<V>,
        map_get(Map::<K::V, V>::empty().insert(k, v), k) == Some(v),
{
}

/// After a run of inserts in which no key comes with two different values, every
/// key inserted is found with its value, and removing one key leaves all the
/// others in place; nothing here depends on the capacity.
pub proof fn law_inserted_keys_retrievable<K: TableKey, V>(
    t: MyHashmap<K, V>,
    pairs: Seq<(K::V, V)>,
    gone: K::V,
)
    requires
        t.wf(),
        keys_agree(pairs.to_set()),
    ensures
        forall|i: int| 0 <= i < pairs.len() ==> map_get(insert_all(t@, pairs), #[trigger] pairs[i].0) == Some(pairs[i].1),
        forall|i: int| 0 <= i < pairs.len() && pairs[i].0 != gone
            ==> map_get(insert_all(t@, pairs).remove(gone), #[trigger] pairs[i].0) == Some(pairs[i].1),
        map_get(insert_all(t@, pairs).remove(gone), gone) == None::<V>,
{
    lemma_insert_all(t@, pairs);
    assert forall|i: int| 0 <= i < pairs.len() implies insert_all(t@, pairs).contains_key(#[trigger] pairs[i].0) by {
        assert(pairs[i].0 == pairs[i].0);
    }
}

proof fn lemma_insert_all<K, V>(m: Map<K, V>, pairs: Seq<(K, V)>)
    requires
        keys_agree(pairs.to_set()),
    ensures
        forall|k: K| #[trigger] insert_all(m, pairs).contains_key(k)
            <==> (m.contains_key(k) || exists|i: int| 0 <= i < pairs.len() && #[trigger] pairs[i].0 == k),
        forall|i: int| 0 <= i < pairs.len() ==> #[trigger] insert_all(m, pairs)[pairs[i].0] == pairs[i].1,
        forall|k: K| #[trigger] insert_all(m, pairs).contains_key(k)
            && (forall|i: int| 0 <= i < pairs.len() ==> #[trigger] pairs[i].0 != k)
            ==> insert_all(m, pairs)[k] == m[k],
    decreases pairs.len(),
{
    if pairs.len() > 0 {
        let front = pairs.drop_last();
        let n = pairs.len() - 1;
        assert forall|i: int| 0 <= i < n implies #[trigger] front[i] == pairs[i] by {}
        assert forall|p: (K, V)| front.to_set().contains(p) implies pairs.to_set().contains(p) by {
            let i = choose|i: int| 0 <= i < front.len() && front[i] == p;
            assert(pairs[i] == front[i]);
        }
        lemma_insert_all(m, front);
        assert(insert_all(m, pairs) == insert_all(m, front).insert(pairs[n].0, pairs[n].1));
        assert forall|k: K| #[trigger] insert_all(m, pairs).contains_key(k)
            <==> (m.contains_key(k) || exists|i: int| 0 <= i < pairs.len() && #[trigger] pairs[i].0 == k) by {
            if exists|i: int| 0 <= i < pairs.len() && #[trigger] pairs[i].0 == k {
                let i = choose|i: int| 0 <= i < pairs.len() && #[trigger] pairs[i].0 == k;
                if i < n {
                    assert(front[i].0 == k);
                    assert(insert_all(m, front).contains_key(k));
                }
            }
            if insert_all(m, front).contains_key(k) {
            }
            if exists|i: int| 0 <= i < front.len() && #[trigger] front[i].0 == k {
                let i = choose|i: int| 0 <= i < front.len() && #[trigger] front[i].0 == k;
                assert(pairs[i].0 == k);
            }
        }
        assert forall|i: int| 0 <= i < pairs.len() implies #[trigger] insert_all(m, pairs)[pairs[i].0] == pairs[i].1 by {
            if i < n && pairs[i].0 != pairs[n].0 {
                assert(front[i] == pairs[i]);
            } else if i < n {
                assert(pairs.to_set().contains(pairs[i]));
                assert(pairs.to_set().contains(pairs[n]));
            }
        }
        assert forall|k: K| #[trigger] insert_all(m, pairs).contains_key(k)
            && (forall|i: int| 0 <= i < pairs.len() ==> #[trigger] pairs[i].0 != k)
            implies insert_all(m, pairs)[k] == m[k] by {
            assert(pairs[n].0 != k);
            assert forall|i: int| 0 <= i < front.len() implies #[trigger] front[i].0 != k by {
                assert(pairs[i].0 != k);
            }
        }
    }
}

/// Inserting the same set of pairs in any order gives the same mapping, as long
/// as no key comes with two different values (else the last one wins, and the
/// order matters).
pub proof fn law_insert_order_independent<K: TableKey, V>(
    t: MyHashmap<K, V>,
    pairs1: Seq<(K::V, V)>,
    pairs2: Seq<(K::V, V)>,
)
    requires
        t.wf(),
        pairs1.to_set() == pairs2.to_set(),
        keys_agree(pairs1.to_set()),
    ensures
        insert_all(t@, pairs1) == insert_all(t@, pairs2),
{
    let m = t@;
    lemma_insert_all(m, pairs1);
    lemma_insert_all(m, pairs2);
    let r1 = insert_all(m, pairs1);
    let r2 = insert_all(m, pairs2);
    assert forall|k: K::V| #[trigger] r1.contains_key(k) == r2.contains_key(k) by {
        if exists|i: int| 0 <= i < pairs1.len() && #[trigger] pairs1[i].0 == k {
            let i = choose|i: int| 0 <= i < pairs1.len() && #[trigger] pairs1[i].0 == k;
            assert(pairs2.to_set().contains(pairs1[i]));
            let j = choose|j: int| 0 <= j < pairs2.len() && pairs2[j] == pairs1[i];
            assert(pairs2[j].0 == k);
        }
        if exists|i: int| 0 <= i < pairs2.len() && #[trigger] pairs2[i].0 == k {
            let i = choose|i: int| 0 <= i < pairs2.len() && #[trigger] pairs2[i].0 == k;
            assert(pairs1.to_set().contains(pairs2[i]));
            let j = choose|j: int| 0 <= j < pairs1.len() && pairs1[j] == pairs2[i];
            assert(pairs1[j].0 == k);
        }
    }
    assert forall|k: K::V| #[trigger] r1.contains_key(k) implies r1[k] == r2[k] by {
        if exists|i: int| 0 <= i < pairs1.len() && #[trigger] pairs1[i].0 == k {
            let i = choose|i: int| 0 <= i < pairs1.len() && #[trigger] pairs1[i].0 == k;
            assert(pairs2.to_set().contains(pairs1[i]));
            let j = choose|j: int| 0 <= j < pairs2.len() && pairs2[j] == pairs1[i];
            assert(r2[pairs2[j].0] == pairs2[j].1);
        } else {
            assert forall|i: int| 0 <= i < pairs2.len() implies #[trigger] pairs2[i].0 != k by {
                if pairs2[i].0 == k {
                    assert(pairs1.to_set().contains(pairs2[i]));
                    let j = choose|j: int| 0 <= j < pairs1.len() && pairs1[j] == pairs2[i];
                    assert(pairs1[j].0 == k);
                }
            }
        }
    }
    assert(r1 =~= r2);
}

} // verus!
