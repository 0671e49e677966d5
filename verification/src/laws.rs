//! Laws of the table, stated over the same abstract model that the
//! executable functions' contracts use, and proved once and for all.

use crate::model::key_views;
use crate::model::pair_map;
use vstd::prelude::*;

verus! {

/// After inserting any sequence of pairs into an empty table (as `insert`
/// and `from_pairs` do), the table holds exactly the distinct key views of
/// the sequence: the count equals the number of distinct keys inserted.
pub proof fn lemma_count_is_distinct_keys<K: View, V>(s: Seq<(K, V)>)
    ensures
        pair_map(s).dom() =~= key_views(s).to_set(),
    decreases s.len(),
{
    if s.len() == 0 {
        assert(key_views::<K, V>(s).to_set() =~= Set::<K::V>::empty());
    } else {
        let dl = s.drop_last();
        lemma_count_is_distinct_keys::<K, V>(dl);
        assert forall|kv: K::V| #[trigger] key_views(s).to_set().contains(kv) implies pair_map(
            s,
        ).dom().contains(kv) by {
            let n = choose|n: int| 0 <= n < key_views(s).len() && key_views(s)[n] == kv;
            if n < dl.len() {
                assert(key_views(dl)[n] == kv);
                assert(key_views(dl).to_set().contains(kv));
            }
        }
        assert forall|kv: K::V| #[trigger] pair_map(s).dom().contains(kv) implies key_views(
            s,
        ).to_set().contains(kv) by {
            if kv == s.last().0@ {
                assert(key_views(s)[s.len() - 1] == kv);
            } else {
                assert(key_views(dl).to_set().contains(kv));
                let n = choose|n: int| 0 <= n < key_views(dl).len() && key_views(dl)[n] == kv;
                assert(key_views(s)[n] == kv);
            }
        }
    }
}

/// Every key of an inserted pair stays present, however many growth events
/// the insertions caused: lookup after bulk construction always succeeds.
pub proof fn lemma_inserted_key_present<K: View, V>(s: Seq<(K, V)>, n: int)
    requires
        0 <= n < s.len(),
    ensures
        pair_map(s).contains_key(s[n].0@),
{
    lemma_count_is_distinct_keys::<K, V>(s);
    assert(key_views(s)[n] == s[n].0@);
    assert(key_views(s).to_set().contains(s[n].0@));
}

/// Round trip: after `insert(k, v1)` the table maps `k` to `v1`, so an
/// immediate `get(k)` returns `v1`; a second insert of `v2` under the same
/// key finds `v1` as the previous value, and `get` afterwards returns `v2`.
pub proof fn lemma_insert_round_trip<KV, V>(m: Map<KV, V>, k: KV, v1: V, v2: V)
    ensures
        m.insert(k, v1).contains_key(k),
        m.insert(k, v1)[k] == v1,
        m.insert(k, v1).insert(k, v2).contains_key(k),
        m.insert(k, v1).insert(k, v2)[k] == v2,
{
}

/// Removing an absent key leaves the table as it was, count included;
/// removing a present key drops the count by exactly one, and a later `get`
/// of that key finds nothing.
pub proof fn lemma_remove_law<KV, V>(m: Map<KV, V>, k: KV)
    requires
        m.dom().finite(),
    ensures
        !m.contains_key(k) ==> m.remove(k) == m,
        m.contains_key(k) ==> m.remove(k).dom().len() + 1 == m.dom().len(),
        !m.remove(k).contains_key(k),
{
    if !m.contains_key(k) {
        assert(m.remove(k) =~= m);
    } else {
        assert(m.remove(k).dom() =~= m.dom().remove(k));
    }
}

/// Bulk construction with a repeated key keeps only the later value: the
/// table has one entry, holding the second value.
pub proof fn lemma_from_pairs_duplicate<K: View, V>(k1: K, k2: K, v1: V, v2: V)
    requires
        k1@ == k2@,
    ensures
        pair_map(seq![(k1, v1), (k2, v2)]) == map![k1@ => v2],
        pair_map(seq![(k1, v1), (k2, v2)]).dom().len() == 1,
{
    let s = seq![(k1, v1), (k2, v2)];
    let s1 = s.drop_last();
    assert(s1 =~= seq![(k1, v1)]);
    assert(s1.drop_last() =~= Seq::<(K, V)>::empty());
    assert(s.last() == (k2, v2) && s1.last() == (k1, v1));
    assert(pair_map(s1) == pair_map(s1.drop_last()).insert(k1@, v1));
    assert(pair_map(s1.drop_last()) == Map::<K::V, V>::empty());
    assert(pair_map(s) == pair_map(s1).insert(k2@, v2));
    assert(pair_map(s) =~= map![k1@ => v2]);
    assert(map![k1@ => v2].dom() =~= Set::<K::V>::empty().insert(k1@));
}

} // verus!
