//! The mathematical model of the table: a sequence of buckets, each a
//! sequence of (key, value) pairs. The abstract value of such a layout is a
//! `Map` from key views to values; the spec functions here say which layouts
//! are well formed and what map they describe.

use crate::key::HashKey;
use vstd::prelude::*;

verus! {

/// `(i, j)` addresses a pair: bucket `i`, slot `j`.
pub open spec fn placed<K, V>(bs: Seq<Seq<(K, V)>>, i: int, j: int) -> bool {
    0 <= i < bs.len() && 0 <= j < bs[i].len()
}

/// Every pair sits in the bucket chosen by its key's hash, modulo the number
/// of buckets.
pub open spec fn placement_ok<K: HashKey, V>(bs: Seq<Seq<(K, V)>>) -> bool {
    forall|i: int, j: int|
        placed(bs, i, j) ==> K::hash_of(#[trigger] bs[i][j].0@) as int % bs.len() as int == i
}

/// No bucket holds two pairs whose keys have the same view.
pub open spec fn buckets_distinct<K: HashKey, V>(bs: Seq<Seq<(K, V)>>) -> bool {
    forall|i: int, j1: int, j2: int|
        placed(bs, i, j1) && placed(bs, i, j2) && j1 != j2 ==> (#[trigger] bs[i][j1].0@)
            != (#[trigger] bs[i][j2].0@)
}

/// No two slots anywhere in the layout hold keys with the same view.
pub open spec fn all_distinct<K: HashKey, V>(bs: Seq<Seq<(K, V)>>) -> bool {
    forall|i1: int, j1: int, i2: int, j2: int|
        placed(bs, i1, j1) && placed(bs, i2, j2) && (i1 != i2 || j1 != j2) ==> (#[trigger] bs[i1][j1].0@) != (#[trigger] bs[i2][j2].0@)
}

/// Some slot holds a key with view `kv`.
pub open spec fn has_key<K: HashKey, V>(bs: Seq<Seq<(K, V)>>, kv: K::V) -> bool {
    exists|i: int, j: int| placed(bs, i, j) && (#[trigger] bs[i][j]).0@ == kv
}

/// Some slot holds the pair `(kv, v)`, up to the key's view.
pub open spec fn has_pair<K: HashKey, V>(bs: Seq<Seq<(K, V)>>, kv: K::V, v: V) -> bool {
    exists|i: int, j: int| placed(bs, i, j) && (#[trigger] bs[i][j]).0@ == kv && bs[i][j].1 == v
}

/// The value stored beside a key with view `kv`.
pub open spec fn value_of<K: HashKey, V>(bs: Seq<Seq<(K, V)>>, kv: K::V) -> V {
    let (i, j) = choose|i: int, j: int| placed(bs, i, j) && (#[trigger] bs[i][j]).0@ == kv;
    bs[i][j].1
}

/// The map a layout describes: key views to stored values.
pub open spec fn map_of<K: HashKey, V>(bs: Seq<Seq<(K, V)>>) -> Map<K::V, V> {
    Map::new(|kv: K::V| has_key(bs, kv), |kv: K::V| value_of(bs, kv))
}

/// The number of pairs in a layout.
pub open spec fn total_len<K, V>(bs: Seq<Seq<(K, V)>>) -> nat
    decreases bs.len(),
{
    if bs.len() == 0 {
        0
    } else {
        bs.first().len() + total_len(bs.drop_first())
    }
}

/// All pairs of a layout, bucket by bucket, in slot order.
pub open spec fn flat_pairs<K, V>(bs: Seq<Seq<(K, V)>>) -> Seq<(K, V)>
    decreases bs.len(),
{
    if bs.len() == 0 {
        Seq::empty()
    } else {
        bs.first() + flat_pairs(bs.drop_first())
    }
}

/// The views of the keys of a pair sequence.
pub open spec fn key_views<K: View, V>(s: Seq<(K, V)>) -> Seq<K::V> {
    s.map_values(|p: (K, V)| p.0@)
}

/// The map described by a sequence of pairs inserted in order: a later pair
/// overwrites an earlier one with the same key view.
pub open spec fn pair_map<K: View, V>(s: Seq<(K, V)>) -> Map<K::V, V>
    decreases s.len(),
{
    if s.len() == 0 {
        Map::empty()
    } else {
        pair_map(s.drop_last()).insert(s.last().0@, s.last().1)
    }
}

/// Replacing one bucket changes the pair count by the difference in bucket
/// length.
pub proof fn lemma_total_update<K, V>(bs: Seq<Seq<(K, V)>>, i: int, b: Seq<(K, V)>)
    requires
        0 <= i < bs.len(),
    ensures
        total_len(bs.update(i, b)) == total_len(bs) - bs[i].len() + b.len(),
    decreases bs.len(),
{
    let bs2 = bs.update(i, b);
    if i == 0 {
        assert(bs2.drop_first() =~= bs.drop_first());
        assert(bs2.first() == b);
    } else {
        assert(bs2.first() == bs.first());
        assert(bs2.drop_first() =~= bs.drop_first().update(i - 1, b));
        lemma_total_update(bs.drop_first(), i - 1, b);
    }
}

/// Appending a bucket adds its length to the pair count.
pub proof fn lemma_total_push<K, V>(bs: Seq<Seq<(K, V)>>, b: Seq<(K, V)>)
    ensures
        total_len(bs.push(b)) == total_len(bs) + b.len(),
    decreases bs.len(),
{
    let bs2 = bs.push(b);
    if bs.len() == 0 {
        assert(bs2.first() == b);
        assert(bs2.drop_first() =~= Seq::<Seq<(K, V)>>::empty());
        assert(total_len(bs2.drop_first()) == 0);
    } else {
        assert(bs2.first() == bs.first());
        assert(bs2.drop_first() =~= bs.drop_first().push(b));
        lemma_total_push(bs.drop_first(), b);
    }
}

/// A pair sequence describes a finite map with at most one entry per pair.
pub proof fn lemma_pair_map_len<K: View, V>(s: Seq<(K, V)>)
    ensures
        pair_map(s).dom().finite(),
        pair_map(s).dom().len() <= s.len(),
    decreases s.len(),
{
    if s.len() == 0 {
        assert(pair_map(s).dom() =~= Set::<K::V>::empty());
    } else {
        let dl = s.drop_last();
        lemma_pair_map_len(dl);
        assert(pair_map(s).dom() =~= pair_map(dl).dom().insert(s.last().0@));
        if pair_map(dl).dom().contains(s.last().0@) {
            assert(pair_map(dl).dom().insert(s.last().0@) =~= pair_map(dl).dom());
        }
    }
}

/// In a layout whose keys are pairwise distinct, the slot of a key is unique,
/// so the stored value is the value of any slot that holds the key.
pub proof fn lemma_value_at<K: HashKey, V>(bs: Seq<Seq<(K, V)>>, i: int, j: int)
    requires
        all_distinct(bs),
        placed(bs, i, j),
    ensures
        has_key(bs, bs[i][j].0@),
        map_of(bs).contains_key(bs[i][j].0@),
        map_of(bs)[bs[i][j].0@] == bs[i][j].1,
{
    let kv = bs[i][j].0@;
    assert(has_key(bs, kv));
    let (i2, j2) = choose|i2: int, j2: int| placed(bs, i2, j2) && (#[trigger] bs[i2][j2]).0@ == kv;
    assert(i2 == i && j2 == j);
}

/// The layout after a swap-with-last removal of slot `(i, j)`: the last pair
/// of bucket `i` moves into slot `j` and the bucket shrinks by one.
pub open spec fn swap_removed<K, V>(bs: Seq<Seq<(K, V)>>, i: int, j: int) -> Seq<Seq<(K, V)>> {
    bs.update(i, bs[i].update(j, bs[i].last()).drop_last())
}

/// Appending a pair with a fresh key to the bucket its key hashes to keeps
/// the layout well formed and inserts the pair into the described map.
pub proof fn lemma_bucket_append<K: HashKey, V>(bs: Seq<Seq<(K, V)>>, i: int, p: (K, V))
    requires
        placement_ok(bs),
        buckets_distinct(bs),
        0 <= i < bs.len(),
        !has_key(bs, p.0@),
        K::hash_of(p.0@) as int % bs.len() as int == i,
    ensures
        placement_ok(bs.update(i, bs[i].push(p))),
        buckets_distinct(bs.update(i, bs[i].push(p))),
        total_len(bs.update(i, bs[i].push(p))) == total_len(bs) + 1,
        map_of(bs.update(i, bs[i].push(p))) == map_of(bs).insert(p.0@, p.1),
{
    let b1 = bs[i].push(p);
    let bs1 = bs.update(i, b1);
    let n = bs[i].len() as int;
    lemma_total_update(bs, i, b1);
    assert(forall|i2: int, j2: int|
        placed(bs, i2, j2) ==> placed(bs1, i2, j2) && bs1[i2][j2] == bs[i2][j2]);
    assert(placed(bs1, i, n) && bs1[i][n] == p);
    assert(forall|i2: int, j2: int|
        placed(bs1, i2, j2) && (i2 != i || j2 != n) ==> placed(bs, i2, j2) && bs1[i2][j2]
            == bs[i2][j2]);
    assert(placement_ok(bs1));
    assert(buckets_distinct(bs1)) by {
        assert forall|i2: int, j1: int, j2: int|
            placed(bs1, i2, j1) && placed(bs1, i2, j2) && j1 != j2 implies (
        #[trigger] bs1[i2][j1].0@) != (#[trigger] bs1[i2][j2].0@) by {
            if i2 == i && j1 == n {
                assert(placed(bs, i2, j2));
                if bs1[i2][j2].0@ == p.0@ {
                    assert(has_key(bs, p.0@));
                }
            } else if i2 == i && j2 == n {
                assert(placed(bs, i2, j1));
                if bs1[i2][j1].0@ == p.0@ {
                    assert(has_key(bs, p.0@));
                }
            }
        }
    }
    lemma_all_distinct(bs);
    lemma_all_distinct(bs1);
    assert forall|kv: K::V| #[trigger] has_key(bs1, kv) implies has_key(bs, kv) || kv == p.0@ by {
        let (i2, j2) = choose|i2: int, j2: int|
            placed(bs1, i2, j2) && (#[trigger] bs1[i2][j2]).0@ == kv;
        if i2 != i || j2 != n {
            assert(placed(bs, i2, j2) && bs[i2][j2].0@ == kv);
        }
    }
    assert(forall|kv: K::V| has_key(bs, kv) ==> #[trigger] has_key(bs1, kv));
    assert(has_key(bs1, p.0@));
    assert(map_of(bs1) =~= map_of(bs).insert(p.0@, p.1)) by {
        assert forall|kv: K::V| #[trigger] map_of(bs1).contains_key(kv) implies map_of(bs).insert(
            p.0@,
            p.1,
        ).contains_key(kv) && map_of(bs1)[kv] == map_of(bs).insert(p.0@, p.1)[kv] by {
            if kv == p.0@ {
                lemma_value_at(bs1, i, n);
            } else {
                let (i2, j2) = choose|i2: int, j2: int|
                    placed(bs1, i2, j2) && (#[trigger] bs1[i2][j2]).0@ == kv;
                assert(placed(bs, i2, j2) && bs[i2][j2].0@ == kv);
                lemma_value_at(bs1, i2, j2);
                lemma_value_at(bs, i2, j2);
            }
        }
    }
}

/// Replacing the value in one slot, keeping its key, keeps the layout well
/// formed and updates the described map at that key alone.
pub proof fn lemma_bucket_set_value<K: HashKey, V>(bs: Seq<Seq<(K, V)>>, i: int, j: int, v: V)
    requires
        placement_ok(bs),
        buckets_distinct(bs),
        placed(bs, i, j),
    ensures
        placement_ok(bs.update(i, bs[i].update(j, (bs[i][j].0, v)))),
        buckets_distinct(bs.update(i, bs[i].update(j, (bs[i][j].0, v)))),
        total_len(bs.update(i, bs[i].update(j, (bs[i][j].0, v)))) == total_len(bs),
        map_of(bs.update(i, bs[i].update(j, (bs[i][j].0, v)))) == map_of(bs).insert(
            bs[i][j].0@,
            v,
        ),
{
    let kv0 = bs[i][j].0@;
    let b1 = bs[i].update(j, (bs[i][j].0, v));
    let bs1 = bs.update(i, b1);
    lemma_total_update(bs, i, b1);
    lemma_all_distinct(bs);
    assert(forall|i2: int, j2: int|
        placed(bs1, i2, j2) ==> placed(bs, i2, j2) && (#[trigger] bs1[i2][j2]).0@ == bs[i2][j2].0@);
    assert(forall|i2: int, j2: int|
        placed(bs, i2, j2) ==> placed(bs1, i2, j2) && (#[trigger] bs1[i2][j2]).0@ == bs[i2][j2].0@);
    assert(forall|i2: int, j2: int|
        placed(bs1, i2, j2) && (i2 != i || j2 != j) ==> (#[trigger] bs1[i2][j2]) == bs[i2][j2]);
    assert(placed(bs1, i, j) && bs1[i][j] == (bs[i][j].0, v));
    assert(placement_ok(bs1));
    assert(buckets_distinct(bs1));
    lemma_all_distinct(bs1);
    assert(map_of(bs1) =~= map_of(bs).insert(kv0, v)) by {
        assert forall|kv: K::V| #[trigger] has_key(bs1, kv) implies has_key(bs, kv) && map_of(
            bs1,
        )[kv] == map_of(bs).insert(kv0, v)[kv] by {
            let (i2, j2) = choose|i2: int, j2: int|
                placed(bs1, i2, j2) && (#[trigger] bs1[i2][j2]).0@ == kv;
            lemma_value_at(bs1, i2, j2);
            if kv == kv0 {
                lemma_value_at(bs1, i, j);
            } else {
                assert(i2 != i || j2 != j);
                lemma_value_at(bs, i2, j2);
            }
        }
        assert forall|kv: K::V| has_key(bs, kv) implies #[trigger] has_key(bs1, kv) by {
            let (i2, j2) = choose|i2: int, j2: int|
                placed(bs, i2, j2) && (#[trigger] bs[i2][j2]).0@ == kv;
            assert(placed(bs1, i2, j2) && bs1[i2][j2].0@ == kv);
        }
    }
}

/// Swap-with-last removal of slot `(i, j)` keeps the layout well formed and
/// removes the slot's key from the described map.
pub proof fn lemma_bucket_remove<K: HashKey, V>(bs: Seq<Seq<(K, V)>>, i: int, j: int)
    requires
        placement_ok(bs),
        buckets_distinct(bs),
        placed(bs, i, j),
    ensures
        placement_ok(swap_removed(bs, i, j)),
        buckets_distinct(swap_removed(bs, i, j)),
        total_len(swap_removed(bs, i, j)) + 1 == total_len(bs),
        !has_key(swap_removed(bs, i, j), bs[i][j].0@),
        map_of(swap_removed(bs, i, j)) == map_of(bs).remove(bs[i][j].0@),
{
    let kv0 = bs[i][j].0@;
    let b = bs[i];
    let n = b.len() as int;
    let b1 = b.update(j, b.last()).drop_last();
    let bs1 = swap_removed(bs, i, j);
    lemma_total_update(bs, i, b1);
    lemma_all_distinct(bs);
    // Slot correspondence within bucket i.
    assert(b1.len() == n - 1);
    assert(forall|j2: int|
        0 <= j2 < n - 1 ==> b1[j2] == (if j2 == j {
            b[n - 1]
        } else {
            b[j2]
        }));
    assert(forall|i2: int, j2: int|
        placed(bs1, i2, j2) && i2 != i ==> placed(bs, i2, j2) && bs1[i2][j2] == bs[i2][j2]);
    assert(forall|i2: int, j2: int|
        placed(bs, i2, j2) && i2 != i ==> placed(bs1, i2, j2) && bs1[i2][j2] == bs[i2][j2]);
    assert(placement_ok(bs1)) by {
        assert forall|i2: int, j2: int| placed(bs1, i2, j2) implies K::hash_of(
            #[trigger] bs1[i2][j2].0@,
        ) as int % bs1.len() as int == i2 by {
            if i2 == i {
                assert(bs1[i2][j2] == (if j2 == j {
                    b[n - 1]
                } else {
                    b[j2]
                }));
                assert(placed(bs, i, n - 1) && placed(bs, i, j2));
            }
        }
    }
    assert(buckets_distinct(bs1)) by {
        assert forall|i2: int, j1: int, j2: int|
            placed(bs1, i2, j1) && placed(bs1, i2, j2) && j1 != j2 implies (
        #[trigger] bs1[i2][j1].0@) != (#[trigger] bs1[i2][j2].0@) by {
            if i2 == i {
                let s1: int = if j1 == j {
                    n - 1
                } else {
                    j1
                };
                let s2: int = if j2 == j {
                    n - 1
                } else {
                    j2
                };
                assert(bs1[i2][j1] == b[s1] && bs1[i2][j2] == b[s2]);
                assert(placed(bs, i, s1) && placed(bs, i, s2) && s1 != s2);
            }
        }
    }
    assert(!has_key(bs1, kv0)) by {
        if has_key(bs1, kv0) {
            let (i2, j2) = choose|i2: int, j2: int|
                placed(bs1, i2, j2) && (#[trigger] bs1[i2][j2]).0@ == kv0;
            if i2 == i {
                let s2: int = if j2 == j {
                    n - 1
                } else {
                    j2
                };
                assert(bs1[i2][j2] == b[s2] && placed(bs, i, s2) && s2 != j);
                assert(bs[i][s2].0@ != bs[i][j].0@);
            } else {
                assert(placed(bs, i2, j2) && bs[i2][j2].0@ == kv0);
                assert(i2 != i || j2 != j);
            }
        }
    }
    lemma_all_distinct(bs1);
    assert(map_of(bs1) =~= map_of(bs).remove(kv0)) by {
        assert forall|kv: K::V| #[trigger] has_key(bs1, kv) implies has_key(bs, kv) && kv != kv0
            && map_of(bs1)[kv] == map_of(bs)[kv] by {
            let (i2, j2) = choose|i2: int, j2: int|
                placed(bs1, i2, j2) && (#[trigger] bs1[i2][j2]).0@ == kv;
            lemma_value_at(bs1, i2, j2);
            if i2 == i {
                let s2: int = if j2 == j {
                    n - 1
                } else {
                    j2
                };
                assert(bs1[i2][j2] == b[s2] && placed(bs, i, s2) && s2 != j);
                lemma_value_at(bs, i, s2);
                assert(bs[i][s2].0@ != bs[i][j].0@);
            } else {
                lemma_value_at(bs, i2, j2);
            }
        }
        assert forall|kv: K::V| has_key(bs, kv) && kv != kv0 implies #[trigger] has_key(
            bs1,
            kv,
        ) by {
            let (i2, j2) = choose|i2: int, j2: int|
                placed(bs, i2, j2) && (#[trigger] bs[i2][j2]).0@ == kv;
            if i2 == i {
                assert(j2 != j);
                if j2 == n - 1 {
                    assert(j != n - 1);
                    assert(placed(bs1, i, j) && bs1[i][j] == b[n - 1]);
                } else {
                    assert(placed(bs1, i, j2) && bs1[i][j2] == b[j2]);
                }
            } else {
                assert(placed(bs1, i2, j2) && bs1[i2][j2] == bs[i2][j2]);
            }
        }
    }
}

/// Hash placement plus per-bucket distinctness makes all keys distinct: two
/// slots with the same key view would be in the same bucket.
pub proof fn lemma_all_distinct<K: HashKey, V>(bs: Seq<Seq<(K, V)>>)
    requires
        placement_ok(bs),
        buckets_distinct(bs),
    ensures
        all_distinct(bs),
{
    assert forall|i1: int, j1: int, i2: int, j2: int|
        placed(bs, i1, j1) && placed(bs, i2, j2) && (i1 != i2 || j1 != j2) implies (
    #[trigger] bs[i1][j1].0@) != (#[trigger] bs[i2][j2].0@) by {
        if bs[i1][j1].0@ == bs[i2][j2].0@ {
            assert(K::hash_of(bs[i1][j1].0@) as int % bs.len() as int == i1);
            assert(K::hash_of(bs[i2][j2].0@) as int % bs.len() as int == i2);
        }
    }
}

/// The pairs a borrowing walk at bucket `b`, slot `a` has still to yield:
/// the rest of the current bucket, then all later buckets.
pub open spec fn iter_rest<K, V>(bs: Seq<Seq<(K, V)>>, b: int, a: int) -> Seq<(K, V)> {
    if 0 <= b < bs.len() {
        bs[b].skip(a) + flat_pairs(bs.skip(b + 1))
    } else {
        Seq::empty()
    }
}

/// The pairs a draining walk at bucket `b` has still to yield: that bucket
/// and all later ones.
pub open spec fn drain_rest<K, V>(bs: Seq<Seq<(K, V)>>, b: int) -> Seq<(K, V)> {
    if 0 <= b < bs.len() {
        flat_pairs(bs.skip(b))
    } else {
        Seq::empty()
    }
}

/// A fresh borrowing walk has the whole flattened layout ahead of it.
pub proof fn lemma_iter_start<K, V>(bs: Seq<Seq<(K, V)>>)
    ensures
        bs.len() > 0 ==> iter_rest(bs, 0, 0) == flat_pairs(bs),
        bs.len() == 0 ==> flat_pairs(bs) == Seq::<(K, V)>::empty(),
{
    if bs.len() > 0 {
        assert(bs[0].skip(0) =~= bs.first());
        assert(bs.skip(1) =~= bs.drop_first());
        assert(iter_rest(bs, 0, 0) == flat_pairs(bs));
    }
}

/// Yielding the pair under the cursor advances the walk by one.
pub proof fn lemma_iter_step<K, V>(bs: Seq<Seq<(K, V)>>, b: int, a: int)
    requires
        0 <= b < bs.len(),
        0 <= a < bs[b].len(),
    ensures
        iter_rest(bs, b, a).len() > 0,
        iter_rest(bs, b, a).first() == bs[b][a],
        iter_rest(bs, b, a).drop_first() == iter_rest(bs, b, a + 1),
{
    assert(iter_rest(bs, b, a).first() == bs[b].skip(a)[0]);
    assert(iter_rest(bs, b, a).drop_first() =~= iter_rest(bs, b, a + 1));
}

/// Stepping past an exhausted bucket yields nothing and loses nothing.
pub proof fn lemma_iter_advance<K, V>(bs: Seq<Seq<(K, V)>>, b: int)
    requires
        0 <= b < bs.len(),
    ensures
        iter_rest(bs, b, bs[b].len() as int) == iter_rest(bs, b + 1, 0),
{
    assert(bs[b].skip(bs[b].len() as int) =~= Seq::<(K, V)>::empty());
    if b + 1 < bs.len() {
        assert(bs.skip(b + 1).first() == bs[b + 1]);
        assert(bs.skip(b + 1).drop_first() =~= bs.skip(b + 2));
        assert(flat_pairs(bs.skip(b + 1)) == bs[b + 1] + flat_pairs(bs.skip(b + 2)));
        assert(bs[b + 1].skip(0) =~= bs[b + 1]);
        assert(iter_rest(bs, b, bs[b].len() as int) =~= iter_rest(bs, b + 1, 0));
    } else {
        assert(bs.skip(b + 1) =~= Seq::<Seq<(K, V)>>::empty());
        assert(iter_rest(bs, b, bs[b].len() as int) =~= Seq::<(K, V)>::empty());
    }
}

/// A fresh draining walk has the whole flattened layout ahead of it.
pub proof fn lemma_drain_start<K, V>(bs: Seq<Seq<(K, V)>>)
    ensures
        bs.len() > 0 ==> drain_rest(bs, 0) == flat_pairs(bs),
        bs.len() == 0 ==> flat_pairs(bs) == Seq::<(K, V)>::empty(),
{
    if bs.len() > 0 {
        assert(bs.skip(0) =~= bs);
    }
}

/// Popping the last pair of the current bucket removes exactly that pair
/// from what the draining walk has ahead.
pub proof fn lemma_drain_pop<K, V>(bs: Seq<Seq<(K, V)>>, b: int)
    requires
        0 <= b < bs.len(),
        bs[b].len() > 0,
    ensures
        0 <= bs[b].len() - 1 < drain_rest(bs, b).len(),
        drain_rest(bs, b)[bs[b].len() - 1] == bs[b].last(),
        drain_rest(bs.update(b, bs[b].drop_last()), b) == drain_rest(bs, b).remove(
            bs[b].len() - 1,
        ),
{
    let n = bs[b].len() as int;
    let bs2 = bs.update(b, bs[b].drop_last());
    assert(bs.skip(b).first() == bs[b]);
    assert(bs.skip(b).drop_first() =~= bs.skip(b + 1));
    assert(flat_pairs(bs.skip(b)) == bs[b] + flat_pairs(bs.skip(b + 1)));
    assert(bs2.skip(b).first() == bs[b].drop_last());
    assert(bs2.skip(b).drop_first() =~= bs.skip(b + 1));
    assert(flat_pairs(bs2.skip(b)) == bs[b].drop_last() + flat_pairs(bs2.skip(b).drop_first()));
    assert(drain_rest(bs2, b) =~= drain_rest(bs, b).remove(n - 1));
}

/// Stepping past an exhausted bucket loses nothing of a draining walk.
pub proof fn lemma_drain_advance<K, V>(bs: Seq<Seq<(K, V)>>, b: int)
    requires
        0 <= b < bs.len(),
        bs[b].len() == 0,
    ensures
        drain_rest(bs, b) == drain_rest(bs, b + 1),
{
    assert(bs.skip(b).first() == bs[b]);
    assert(bs.skip(b).drop_first() =~= bs.skip(b + 1));
    assert(flat_pairs(bs.skip(b)) == bs[b] + flat_pairs(bs.skip(b + 1)));
    if b + 1 < bs.len() {
        assert(drain_rest(bs, b) =~= drain_rest(bs, b + 1));
    } else {
        assert(bs.skip(b + 1) =~= Seq::<Seq<(K, V)>>::empty());
        assert(drain_rest(bs, b) =~= Seq::<(K, V)>::empty());
    }
}

/// The flattened layout holds as many pairs as the layout.
pub proof fn lemma_flat_total<K, V>(bs: Seq<Seq<(K, V)>>)
    ensures
        flat_pairs(bs).len() == total_len(bs),
    decreases bs.len(),
{
    if bs.len() > 0 {
        lemma_flat_total(bs.drop_first());
    }
}

/// Every slot of the layout appears somewhere in the flattened layout.
pub proof fn lemma_flat_slot<K, V>(bs: Seq<Seq<(K, V)>>, i: int, j: int)
    requires
        placed(bs, i, j),
    ensures
        exists|n: int| 0 <= n < flat_pairs(bs).len() && flat_pairs(bs)[n] == bs[i][j],
    decreases bs.len(),
{
    let fl = flat_pairs(bs);
    if i == 0 {
        assert(fl[j] == bs[0][j]);
    } else {
        let rest = bs.drop_first();
        lemma_flat_slot(rest, i - 1, j);
        let n0 = choose|n0: int|
            0 <= n0 < flat_pairs(rest).len() && flat_pairs(rest)[n0] == rest[i - 1][j];
        assert(rest[i - 1] == bs[i]);
        assert(fl[bs[0].len() + n0] == flat_pairs(rest)[n0]);
    }
}

/// Every position of the flattened layout comes from some slot.
pub proof fn lemma_flat_pos<K, V>(bs: Seq<Seq<(K, V)>>, n: int)
    requires
        0 <= n < flat_pairs(bs).len(),
    ensures
        exists|i: int, j: int| placed(bs, i, j) && flat_pairs(bs)[n] == (#[trigger] bs[i][j]),
    decreases bs.len(),
{
    let fl = flat_pairs(bs);
    if n < bs.first().len() {
        assert(placed(bs, 0, n) && fl[n] == bs[0][n]);
    } else {
        let rest = bs.drop_first();
        lemma_flat_pos(rest, n - bs.first().len());
        let (i0, j0) = choose|i0: int, j0: int|
            placed(rest, i0, j0) && flat_pairs(rest)[n - bs.first().len()] == (
            #[trigger] rest[i0][j0]);
        assert(rest[i0] == bs[i0 + 1]);
        assert(placed(bs, i0 + 1, j0) && fl[n] == bs[i0 + 1][j0]);
    }
}

/// Dropping the first bucket keeps all keys pairwise distinct.
pub proof fn lemma_all_distinct_drop_first<K: HashKey, V>(bs: Seq<Seq<(K, V)>>)
    requires
        all_distinct(bs),
        bs.len() > 0,
    ensures
        all_distinct(bs.drop_first()),
{
    let rest = bs.drop_first();
    assert forall|i1: int, j1: int, i2: int, j2: int|
        placed(rest, i1, j1) && placed(rest, i2, j2) && (i1 != i2 || j1 != j2) implies (
    #[trigger] rest[i1][j1].0@) != (#[trigger] rest[i2][j2].0@) by {
        assert(rest[i1] == bs[i1 + 1]);
        assert(rest[i2] == bs[i2 + 1]);
        assert(placed(bs, i1 + 1, j1));
        assert(placed(bs, i2 + 1, j2));
    }
}

/// In a layout with pairwise distinct keys, no key view repeats anywhere in
/// the flattened layout.
pub proof fn lemma_flat_distinct<K: HashKey, V>(bs: Seq<Seq<(K, V)>>)
    requires
        all_distinct(bs),
    ensures
        forall|n1: int, n2: int|
            0 <= n1 < n2 < flat_pairs(bs).len() ==> (#[trigger] flat_pairs(bs)[n1].0@) != (
            #[trigger] flat_pairs(bs)[n2].0@),
    decreases bs.len(),
{
    if bs.len() > 0 {
        let fl = flat_pairs(bs);
        let rest = bs.drop_first();
        let len0 = bs.first().len() as int;
        lemma_all_distinct_drop_first(bs);
        lemma_flat_distinct(rest);
        assert forall|n1: int, n2: int| 0 <= n1 < n2 < fl.len() implies (
        #[trigger] fl[n1].0@) != (#[trigger] fl[n2].0@) by {
            if n1 < len0 && n2 < len0 {
                assert(fl[n1] == bs[0][n1] && fl[n2] == bs[0][n2]);
                assert(placed(bs, 0, n1) && placed(bs, 0, n2));
            } else if n1 >= len0 && n2 >= len0 {
                assert(fl[n1] == flat_pairs(rest)[n1 - len0]);
                assert(fl[n2] == flat_pairs(rest)[n2 - len0]);
            } else {
                assert(fl[n1] == bs[0][n1] && placed(bs, 0, n1));
                assert(fl[n2] == flat_pairs(rest)[n2 - len0]);
                lemma_flat_pos(rest, n2 - len0);
                let (i0, j0) = choose|i0: int, j0: int|
                    placed(rest, i0, j0) && flat_pairs(rest)[n2 - len0] == (#[trigger] rest[i0][j0]);
                assert(rest[i0] == bs[i0 + 1]);
                assert(placed(bs, i0 + 1, j0));
                assert(bs[0][n1].0@ != bs[i0 + 1][j0].0@);
            }
        }
    }
}

/// A set split into two finite disjoint parts has the sum of their sizes.
pub proof fn lemma_disjoint_union_len<A>(a: Set<A>, b: Set<A>)
    requires
        a.finite(),
        b.finite(),
        a.disjoint(b),
    ensures
        a.union(b).finite(),
        a.union(b).len() == a.len() + b.len(),
    decreases b.len(),
{
    if b.len() == 0 {
        assert(b =~= Set::empty());
        assert(a.union(b) =~= a);
    } else {
        assert(!(b =~= Set::empty()));
        let x = choose|x: A| b.contains(x);
        lemma_disjoint_union_len(a, b.remove(x));
        assert(a.union(b) =~= a.union(b.remove(x)).insert(x));
        assert(!a.union(b.remove(x)).contains(x));
    }
}

/// The number of distinct key views in a layout with pairwise distinct keys
/// equals the number of pairs.
pub proof fn lemma_map_of_len<K: HashKey, V>(bs: Seq<Seq<(K, V)>>)
    requires
        all_distinct(bs),
    ensures
        map_of(bs).dom().finite(),
        map_of(bs).dom().len() == total_len(bs),
    decreases bs.len(),
{
    broadcast use vstd::seq_lib::group_seq_properties;

    if bs.len() == 0 {
        assert(map_of(bs).dom() =~= Set::<K::V>::empty());
    } else {
        let first = bs.first();
        let rest = bs.drop_first();
        assert(all_distinct(rest)) by {
            assert forall|i1: int, j1: int, i2: int, j2: int|
                placed(rest, i1, j1) && placed(rest, i2, j2) && (i1 != i2 || j1 != j2) implies (
            #[trigger] rest[i1][j1].0@) != (#[trigger] rest[i2][j2].0@) by {
                assert(rest[i1] == bs[i1 + 1]);
                assert(rest[i2] == bs[i2 + 1]);
                assert(placed(bs, i1 + 1, j1));
                assert(placed(bs, i2 + 1, j2));
            }
        }
        lemma_map_of_len(rest);
        let fk = key_views(first).to_set();
        let rk = map_of(rest).dom();
        assert(key_views::<K, V>(first).no_duplicates()) by {
            assert forall|j1: int, j2: int|
                0 <= j1 < j2 < key_views::<K, V>(first).len() implies key_views::<K, V>(
                first,
            )[j1] != key_views::<K, V>(first)[j2] by {
                assert(placed(bs, 0, j1));
                assert(placed(bs, 0, j2));
                assert(bs[0][j1].0@ != bs[0][j2].0@);
            }
        }
        key_views::<K, V>(first).unique_seq_to_set();
        assert(fk.len() == first.len());
        assert(fk.disjoint(rk)) by {
            assert forall|kv: K::V| fk.contains(kv) implies !rk.contains(kv) by {
                let j = choose|j: int|
                    0 <= j < key_views::<K, V>(first).len() && key_views::<K, V>(first)[j] == kv;
                if rk.contains(kv) {
                    let (i2, j2) = choose|i2: int, j2: int|
                        placed(rest, i2, j2) && (#[trigger] rest[i2][j2]).0@ == kv;
                    assert(rest[i2] == bs[i2 + 1]);
                    assert(placed(bs, 0, j));
                    assert(placed(bs, i2 + 1, j2));
                    assert(bs[0][j].0@ != bs[i2 + 1][j2].0@);
                }
            }
        }
        lemma_disjoint_union_len(fk, rk);
        assert(map_of(bs).dom() =~= fk.union(rk)) by {
            assert forall|kv: K::V| map_of(bs).dom().contains(kv) implies fk.union(rk).contains(
                kv,
            ) by {
                let (i, j) = choose|i: int, j: int|
                    placed(bs, i, j) && (#[trigger] bs[i][j]).0@ == kv;
                if i == 0 {
                    assert(key_views::<K, V>(first)[j] == kv);
                } else {
                    assert(rest[i - 1] == bs[i]);
                    assert(placed(rest, i - 1, j));
                    assert(has_key(rest, kv));
                }
            }
            assert forall|kv: K::V| fk.union(rk).contains(kv) implies map_of(bs).dom().contains(
                kv,
            ) by {
                if fk.contains(kv) {
                    let j = choose|j: int|
                        0 <= j < key_views::<K, V>(first).len() && key_views::<K, V>(first)[j]
                            == kv;
                    assert(placed(bs, 0, j));
                    assert(bs[0][j].0@ == kv);
                } else {
                    let (i2, j2) = choose|i2: int, j2: int|
                        placed(rest, i2, j2) && (#[trigger] rest[i2][j2]).0@ == kv;
                    assert(rest[i2] == bs[i2 + 1]);
                    assert(placed(bs, i2 + 1, j2));
                    assert(bs[i2 + 1][j2].0@ == kv);
                }
            }
        }
    }
}

} // verus!
