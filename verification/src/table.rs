//! The table itself: a vector of buckets, each a vector of (key, value)
//! pairs, and a live pair count. A pair lives in the bucket selected by its
//! key's hash modulo the bucket count; the bucket array doubles when the load
//! factor passes 3/4. The abstract value of a table is the `Map` from key
//! views to values described by its buckets.

use crate::key::HashKey;
use crate::key::KeyProbe;
use crate::model::all_distinct;
use crate::model::buckets_distinct;
use crate::model::flat_pairs;
use crate::model::has_key;
use crate::model::has_pair;
use crate::model::drain_rest;
use crate::model::iter_rest;
use crate::model::lemma_all_distinct;
use crate::model::lemma_drain_advance;
use crate::model::lemma_drain_pop;
use crate::model::lemma_drain_start;
use crate::model::lemma_flat_distinct;
use crate::model::lemma_flat_pos;
use crate::model::lemma_flat_slot;
use crate::model::lemma_flat_total;
use crate::model::lemma_iter_advance;
use crate::model::lemma_iter_start;
use crate::model::lemma_iter_step;
use crate::model::lemma_map_of_len;
use crate::model::lemma_pair_map_len;
use crate::model::lemma_total_push;
use crate::model::lemma_total_update;
use crate::model::lemma_value_at;
use crate::model::map_of;
use crate::model::pair_map;
use crate::model::lemma_bucket_append;
use crate::model::lemma_bucket_remove;
use crate::model::lemma_bucket_set_value;
use crate::model::placed;
use crate::model::placement_ok;
use crate::model::swap_removed;
use crate::model::total_len;
use vstd::pervasive::unreached;
use vstd::prelude::*;

verus! {

/// The bucket layout a vector of bucket vectors stands for.
spec fn seqs_of<K, V>(b: Seq<Vec<(K, V)>>) -> Seq<Seq<(K, V)>> {
    Seq::new(b.len(), |i: int| b[i]@)
}

/// While rehashing, the pairs of the original layout `orig` are split between
/// the drained remainder `rem` and the freshly filled layout `nb`: every pair
/// is on exactly one side, `nb` already obeys hash placement, and no key view
/// is duplicated anywhere.
spec fn rehash_inv<K: HashKey, V>(
    orig: Seq<Seq<(K, V)>>,
    rem: Seq<Seq<(K, V)>>,
    nb: Seq<Seq<(K, V)>>,
) -> bool {
    &&& placement_ok(nb)
    &&& all_distinct(nb)
    &&& all_distinct(rem)
    &&& (forall|kv: K::V, v: V| has_pair(nb, kv, v) ==> has_pair(orig, kv, v))
    &&& (forall|kv: K::V, v: V| has_pair(rem, kv, v) ==> has_pair(orig, kv, v))
    &&& (forall|kv: K::V, v: V| has_pair(orig, kv, v) ==> has_pair(nb, kv, v) || has_pair(rem, kv, v))
    &&& (forall|kv: K::V| !(has_key(nb, kv) && has_key(rem, kv)))
    &&& total_len(nb) + total_len(rem) == total_len(orig)
}

/// Moving the last pair of the remainder's last bucket into its new bucket
/// preserves the rehash invariant.
proof fn lemma_rehash_step<K: HashKey, V>(
    orig: Seq<Seq<(K, V)>>,
    som: Seq<Seq<(K, V)>>,
    bpre: Seq<(K, V)>,
    nb: Seq<Seq<(K, V)>>,
    idx: int,
)
    requires
        rehash_inv(orig, som.push(bpre), nb),
        bpre.len() > 0,
        nb.len() > 0,
        0 <= idx < nb.len(),
        idx == K::hash_of(bpre.last().0@) as int % nb.len() as int,
    ensures
        rehash_inv(orig, som.push(bpre.drop_last()), nb.update(idx, nb[idx].push(bpre.last()))),
        total_len(nb.update(idx, nb[idx].push(bpre.last()))) == total_len(nb) + 1,
{
    let p = bpre.last();
    let rem0 = som.push(bpre);
    let rem1 = som.push(bpre.drop_last());
    let nb1 = nb.update(idx, nb[idx].push(p));
    let newj = nb[idx].len() as int;
    lemma_total_update(nb, idx, nb[idx].push(p));
    lemma_total_push(som, bpre);
    lemma_total_push(som, bpre.drop_last());
    // The popped pair sits at the end of the remainder.
    let pi = rem0.len() - 1;
    let pj = bpre.len() - 1;
    assert(placed(rem0, pi, pj) && rem0[pi][pj] == p);
    assert(has_pair(rem0, p.0@, p.1));
    assert(has_key(rem0, p.0@));
    assert(!has_key(nb, p.0@));
    // Old slots of nb are unchanged; slot (idx, newj) holds p.
    assert(forall|i: int, j: int|
        placed(nb, i, j) ==> placed(nb1, i, j) && nb1[i][j] == nb[i][j]);
    assert(placed(nb1, idx, newj) && nb1[idx][newj] == p);
    assert(forall|i: int, j: int|
        placed(nb1, i, j) && (i != idx || j != newj) ==> placed(nb, i, j) && nb[i][j] == nb1[i][j]);
    // Slots of the new remainder are slots of the old one, short of the popped slot.
    assert(forall|i: int, j: int|
        placed(rem1, i, j) ==> placed(rem0, i, j) && rem0[i][j] == rem1[i][j] && (i != pi || j
            != pj));
    assert(placement_ok(nb1));
    assert(all_distinct(nb1)) by {
        assert forall|i1: int, j1: int, i2: int, j2: int|
            placed(nb1, i1, j1) && placed(nb1, i2, j2) && (i1 != i2 || j1 != j2) implies (
        #[trigger] nb1[i1][j1].0@) != (#[trigger] nb1[i2][j2].0@) by {
            if (i1 == idx && j1 == newj) {
                assert(!has_key(nb, nb1[i2][j2].0@) || nb1[i2][j2].0@ != p.0@);
            } else if (i2 == idx && j2 == newj) {
                assert(!has_key(nb, nb1[i1][j1].0@) || nb1[i1][j1].0@ != p.0@);
            }
        }
    }
    assert(all_distinct(rem1));
    assert(forall|kv: K::V, v: V| has_pair(nb1, kv, v) ==> has_pair(orig, kv, v));
    assert(forall|kv: K::V, v: V| has_pair(rem1, kv, v) ==> has_pair(orig, kv, v));
    assert forall|kv: K::V, v: V| has_pair(orig, kv, v) implies has_pair(nb1, kv, v) || has_pair(
        rem1,
        kv,
        v,
    ) by {
        if has_pair(nb, kv, v) {
            let (i, j) = choose|i: int, j: int|
                placed(nb, i, j) && (#[trigger] nb[i][j]).0@ == kv && nb[i][j].1 == v;
            assert(placed(nb1, i, j) && nb1[i][j].0@ == kv && nb1[i][j].1 == v);
        } else if has_pair(rem0, kv, v) {
            let (i, j) = choose|i: int, j: int|
                placed(rem0, i, j) && (#[trigger] rem0[i][j]).0@ == kv && rem0[i][j].1 == v;
            if i == pi && j == pj {
                assert(placed(nb1, idx, newj) && nb1[idx][newj].0@ == kv && nb1[idx][newj].1 == v);
            } else if i == pi {
                assert(placed(rem1, i, j) && rem1[i][j] == rem0[i][j]);
            } else {
                assert(placed(rem1, i, j) && rem1[i][j] == rem0[i][j]);
            }
        }
    }
    assert forall|kv: K::V| !(has_key(nb1, kv) && has_key(rem1, kv)) by {
        if has_key(nb1, kv) && has_key(rem1, kv) {
            let (i, j) = choose|i: int, j: int|
                placed(rem1, i, j) && (#[trigger] rem1[i][j]).0@ == kv;
            assert(placed(rem0, i, j) && rem0[i][j].0@ == kv);
            let (i2, j2) = choose|i2: int, j2: int|
                placed(nb1, i2, j2) && (#[trigger] nb1[i2][j2]).0@ == kv;
            if i2 == idx && j2 == newj {
                // kv is the popped key; its only slot in the remainder was the popped one.
                assert(rem0[pi][pj].0@ == kv);
                assert((i != pi || j != pj) && placed(rem0, pi, pj));
            } else {
                assert(has_key(nb, kv));
                assert(has_key(rem0, kv));
            }
        }
    }
}

/// Dropping an exhausted bucket from the remainder preserves the invariant.
proof fn lemma_rehash_drop<K: HashKey, V>(
    orig: Seq<Seq<(K, V)>>,
    som: Seq<Seq<(K, V)>>,
    nb: Seq<Seq<(K, V)>>,
)
    requires
        rehash_inv(orig, som.push(Seq::empty()), nb),
    ensures
        rehash_inv(orig, som, nb),
{
    let rem0 = som.push(Seq::<(K, V)>::empty());
    lemma_total_push(som, Seq::<(K, V)>::empty());
    assert(forall|i: int, j: int| placed(som, i, j) ==> placed(rem0, i, j) && rem0[i][j] == som[i][j]);
    assert(forall|i: int, j: int| placed(rem0, i, j) ==> placed(som, i, j) && rem0[i][j] == som[i][j]);
    assert(forall|kv: K::V, v: V| has_pair(som, kv, v) ==> has_pair(rem0, kv, v));
    assert forall|kv: K::V, v: V| has_pair(rem0, kv, v) implies has_pair(som, kv, v) by {
        if has_pair(rem0, kv, v) {
            let (i, j) = choose|i: int, j: int|
                placed(rem0, i, j) && (#[trigger] rem0[i][j]).0@ == kv && rem0[i][j].1 == v;
            assert(placed(som, i, j));
        }
    }
    assert forall|kv: K::V| has_key(rem0, kv) == has_key(som, kv) by {
        if has_key(rem0, kv) {
            let (i, j) = choose|i: int, j: int|
                placed(rem0, i, j) && (#[trigger] rem0[i][j]).0@ == kv;
            assert(placed(som, i, j));
        }
        if has_key(som, kv) {
            let (i, j) = choose|i: int, j: int|
                placed(som, i, j) && (#[trigger] som[i][j]).0@ == kv;
            assert(placed(rem0, i, j));
        }
    }
}

/// When the remainder is empty, the new layout describes the original map.
proof fn lemma_rehash_done<K: HashKey, V>(orig: Seq<Seq<(K, V)>>, nb: Seq<Seq<(K, V)>>)
    requires
        rehash_inv(orig, Seq::empty(), nb),
        all_distinct(orig),
    ensures
        map_of(nb) == map_of(orig),
        total_len(nb) == total_len(orig),
{
    let rem = Seq::<Seq<(K, V)>>::empty();
    assert(forall|kv: K::V| !has_key(rem, kv));
    assert(forall|kv: K::V, v: V| !has_pair(rem, kv, v));
    assert forall|kv: K::V| has_key(orig, kv) == has_key(nb, kv) by {
        if has_key(orig, kv) {
            let (i, j) = choose|i: int, j: int|
                placed(orig, i, j) && (#[trigger] orig[i][j]).0@ == kv;
            assert(has_pair(orig, kv, orig[i][j].1));
            assert(has_pair(nb, kv, orig[i][j].1));
        }
        if has_key(nb, kv) {
            let (i, j) = choose|i: int, j: int|
                placed(nb, i, j) && (#[trigger] nb[i][j]).0@ == kv;
            assert(has_pair(nb, kv, nb[i][j].1));
            assert(has_pair(orig, kv, nb[i][j].1));
        }
    }
    assert(map_of(nb) =~= map_of(orig)) by {
        assert forall|kv: K::V| #[trigger] map_of(orig).contains_key(kv) implies map_of(nb)[kv]
            == map_of(orig)[kv] by {
            let (i, j) = choose|i: int, j: int|
                placed(orig, i, j) && (#[trigger] orig[i][j]).0@ == kv;
            lemma_value_at(orig, i, j);
            let v = orig[i][j].1;
            assert(has_pair(nb, kv, v));
            let (i2, j2) = choose|i2: int, j2: int|
                placed(nb, i2, j2) && (#[trigger] nb[i2][j2]).0@ == kv && nb[i2][j2].1 == v;
            lemma_value_at(nb, i2, j2);
        }
    }
}

/// A separate-chaining hash map from `K` to `V`.
pub struct HashMap<K: HashKey, V> {
    buckets: Vec<Vec<(K, V)>>,
    items: usize,
}

impl<K: HashKey, V> View for HashMap<K, V> {
    type V = Map<K::V, V>;

    closed spec fn view(&self) -> Map<K::V, V> {
        map_of(self.bucket_seqs())
    }
}

impl<K: HashKey, V> HashMap<K, V> {
    /// The buckets as a sequence of pair sequences.
    pub closed spec fn bucket_seqs(&self) -> Seq<Seq<(K, V)>> {
        seqs_of(self.buckets@)
    }

    /// All pairs of the table, bucket by bucket, in slot order: the order in
    /// which borrowing iteration yields them.
    pub closed spec fn pairs(&self) -> Seq<(K, V)> {
        flat_pairs(self.bucket_seqs())
    }

    /// Well-formedness: every pair is in the bucket its key hashes to, no
    /// bucket holds one key view twice, the live count matches the layout,
    /// and the bucket array is small enough that growth cannot overflow.
    pub closed spec fn wf(&self) -> bool {
        &&& placement_ok(self.bucket_seqs())
        &&& buckets_distinct(self.bucket_seqs())
        &&& self.items == total_len(self.bucket_seqs())
        &&& self.buckets@.len() <= usize::MAX as nat / 4
    }

    /// Inputs large enough to approach this bound cannot be inserted: one
    /// more pair could force a doubling past the address space.
    pub open spec fn capacity_limit() -> nat {
        usize::MAX as nat / 16
    }

    /// The growth policy: with `c` buckets and `n` live pairs, a mutation
    /// first grows the bucket array exactly when `c == 0` or the load factor
    /// passes 3/4, to one bucket from empty and to double otherwise.
    pub open spec fn grown_capacity(c: nat, n: nat) -> nat {
        if c == 0 || n > 3 * c / 4 {
            if c == 0 {
                1
            } else {
                2 * c
            }
        } else {
            c
        }
    }

    /// Creates an empty table: no buckets, no pairs, and nothing allocated.
    pub fn new() -> (m: Self)
        ensures
            m.wf(),
            m@ == Map::<K::V, V>::empty(),
            m@.dom().len() == 0,
            m.bucket_seqs().len() == 0,
    {
        let m = HashMap { buckets: Vec::new(), items: 0 };
        proof {
            assert(m.bucket_seqs() =~= Seq::empty());
            assert(m@ =~= Map::<K::V, V>::empty());
        }
        m
    }

    /// The bucket a key belongs to: its hash modulo the bucket count, or
    /// nothing while the table has no buckets.
    fn bucket_idx<Q: KeyProbe<K> + ?Sized>(&self, key: &Q) -> (r: Option<usize>)
        ensures
            match r {
                Some(i) => self.bucket_seqs().len() > 0 && i as int == K::hash_of(key@) as int
                    % self.bucket_seqs().len() as int,
                None => self.bucket_seqs().len() == 0,
            },
    {
        if self.buckets.len() == 0 {
            return None;
        }
        let h = key.probe_hash();
        let i = (h % (self.buckets.len() as u64)) as usize;
        Some(i)
    }

    /// Allocates a bucket array of the target size (1 from empty, else
    /// double) and moves every pair into the bucket its key hashes to under
    /// the new modulus. The abstract map is unchanged.
    #[verifier::loop_isolation(false)]
    fn resize(&mut self)
        requires
            old(self).wf(),
            old(self).items < Self::capacity_limit(),
            old(self).buckets@.len() == 0 || old(self).items > 3 * old(self).buckets@.len() / 4,
        ensures
            final(self).wf(),
            final(self)@ == old(self)@,
            final(self).items == old(self).items,
            final(self).bucket_seqs().len() == (if old(self).bucket_seqs().len() == 0 {
                1nat
            } else {
                2 * old(self).bucket_seqs().len()
            }),
            final(self).bucket_seqs().len() > 0,
            final(self).items < usize::MAX as nat / 4,
    {
        let ghost orig = old(self).bucket_seqs();
        proof {
            lemma_all_distinct(orig);
        }
        let old_len = self.buckets.len();
        proof {
            if old_len > 0 {
                assert(3 * old_len == 4 * (3 * old_len / 4) + (3 * old_len) % 4);
                assert(3 * old_len < 4 * self.items);
            }
        }
        let target: usize = if old_len == 0 {
            1
        } else {
            old_len * 2
        };
        assert(target as nat <= usize::MAX as nat / 4);
        let mut new_buckets: Vec<Vec<(K, V)>> = Vec::with_capacity(target);
        let mut t: usize = 0;
        while t < target
            invariant
                t <= target,
                new_buckets@.len() == t as nat,
                forall|i: int| 0 <= i < t ==> (#[trigger] new_buckets@[i])@.len() == 0,
                total_len(seqs_of(new_buckets@)) == 0,
            decreases target - t,
        {
            let ghost nbs = seqs_of(new_buckets@);
            new_buckets.push(Vec::new());
            proof {
                lemma_total_push(nbs, Seq::<(K, V)>::empty());
                assert(seqs_of(new_buckets@) =~= nbs.push(Seq::empty()));
            }
            t = t + 1;
        }
        let mut old_buckets: Vec<Vec<(K, V)>> = Vec::new();
        core::mem::swap(&mut old_buckets, &mut self.buckets);
        proof {
            assert(seqs_of(old_buckets@) =~= orig);
            assert(rehash_inv(orig, seqs_of(old_buckets@), seqs_of(new_buckets@)));
        }
        while old_buckets.len() > 0
            invariant
                new_buckets@.len() == target as nat,
                rehash_inv(orig, seqs_of(old_buckets@), seqs_of(new_buckets@)),
            decreases seqs_of(old_buckets@).len(), 0nat,
        {
            let ghost rem_before = seqs_of(old_buckets@);
            let mut b = match old_buckets.pop() {
                Some(b) => b,
                None => unreached(),
            };
            proof {
                assert(seqs_of(old_buckets@).push(b@) =~= rem_before);
            }
            while b.len() > 0
                invariant
                    new_buckets@.len() == target as nat,
                    rehash_inv(orig, seqs_of(old_buckets@).push(b@), seqs_of(new_buckets@)),
                decreases seqs_of(old_buckets@).len(), b@.len(),
            {
                let ghost bpre = b@;
                let ghost nb0 = seqs_of(new_buckets@);
                let p = match b.pop() {
                    Some(p) => p,
                    None => unreached(),
                };
                let h = p.0.key_hash();
                let idx = (h % (new_buckets.len() as u64)) as usize;
                proof {
                    lemma_rehash_step(orig, seqs_of(old_buckets@), bpre, nb0, idx as int);
                }
                let bucket = &mut new_buckets[idx];
                bucket.push(p);
                proof {
                    assert(seqs_of(new_buckets@) =~= nb0.update(idx as int, nb0[idx as int].push(
                        p,
                    )));
                    assert(seqs_of(old_buckets@).push(b@) =~= seqs_of(old_buckets@).push(
                        bpre.drop_last(),
                    ));
                }
            }
            proof {
                assert(b@ =~= Seq::<(K, V)>::empty());
                lemma_rehash_drop(orig, seqs_of(old_buckets@), seqs_of(new_buckets@));
            }
        }
        proof {
            assert(seqs_of(old_buckets@) =~= Seq::<Seq<(K, V)>>::empty());
            lemma_rehash_done(orig, seqs_of(new_buckets@));
        }
        self.buckets = new_buckets;
    }

    /// Inserts a pair. If the key (by view) is already present, its value is
    /// replaced and the previous value is returned; otherwise the pair is
    /// appended to its bucket, after growing the bucket array if the load
    /// factor demands it.
    #[verifier::loop_isolation(false)]
    pub fn insert(&mut self, key: K, value: V) -> (prev: Option<V>)
        requires
            old(self).wf(),
            old(self)@.dom().len() < Self::capacity_limit(),
        ensures
            final(self).wf(),
            final(self)@ == old(self)@.insert(key@, value),
            final(self)@.dom().finite(),
            final(self).bucket_seqs().len() == Self::grown_capacity(
                old(self).bucket_seqs().len(),
                old(self)@.dom().len(),
            ),
            prev == (if old(self)@.contains_key(key@) {
                Some(old(self)@[key@])
            } else {
                None::<V>
            }),
    {
        proof {
            lemma_all_distinct(self.bucket_seqs());
            lemma_map_of_len(self.bucket_seqs());
        }
        if self.buckets.len() == 0 || self.items > 3 * self.buckets.len() / 4 {
            self.resize();
        }
        let idx = match self.bucket_idx(&key) {
            Some(i) => i,
            None => unreached(),
        };
        let ghost bs = self.bucket_seqs();
        let ghost mid = self@;
        let ghost snap = *self;
        proof {
            assert(self.items < Self::capacity_limit());
        }
        let blen = self.buckets[idx].len();
        let mut j: usize = 0;
        while j < blen
            invariant
                *self == snap,
                j <= blen,
                forall|j2: int| 0 <= j2 < j ==> (#[trigger] bs[idx as int][j2]).0@ != key@,
            decreases blen - j,
        {
            let hit = self.buckets[idx][j].0.key_eq(&key);
            if hit {
                proof {
                    lemma_value_at(bs, idx as int, j as int);
                    lemma_bucket_remove(bs, idx as int, j as int);
                    lemma_bucket_append(swap_removed(bs, idx as int, j as int), idx as int, (key, value));
                }
                let bucket = &mut self.buckets[idx];
                let old_pair = bucket.swap_remove(j);
                bucket.push((key, value));
                proof {
                    let bs_mid = swap_removed(bs, idx as int, j as int);
                    assert(self.bucket_seqs() =~= bs_mid.update(idx as int, bs_mid[idx as int].push((key, value))));
                    assert(self@ =~= mid.insert(key@, value)) by {
                        assert(self@ =~= mid.remove(key@).insert(key@, value));
                    }
                    lemma_all_distinct(self.bucket_seqs());
                    lemma_map_of_len(self.bucket_seqs());
                }
                return Some(old_pair.1);
            }
            j = j + 1;
        }
        proof {
            assert(!has_key(bs, key@)) by {
                if has_key(bs, key@) {
                    let (i2, j2) = choose|i2: int, j2: int|
                        placed(bs, i2, j2) && (#[trigger] bs[i2][j2]).0@ == key@;
                    assert(K::hash_of(bs[i2][j2].0@) as int % bs.len() as int == i2);
                }
            }
            assert(!mid.contains_key(key@));
            lemma_bucket_append(bs, idx as int, (key, value));
        }
        let bucket = &mut self.buckets[idx];
        bucket.push((key, value));
        self.items = self.items + 1;
        proof {
            assert(self.bucket_seqs() =~= bs.update(idx as int, bs[idx as int].push((key, value))));
            lemma_all_distinct(self.bucket_seqs());
            lemma_map_of_len(self.bucket_seqs());
        }
        None
    }

    /// Looks a key up: hashes it, scans its bucket, and returns a reference
    /// to the value stored beside the one key with an equal view, if any.
    #[verifier::loop_isolation(false)]
    pub fn get<'a, Q: KeyProbe<K> + ?Sized>(&'a self, key: &Q) -> (r: Option<&'a V>)
        requires
            self.wf(),
        ensures
            match r {
                Some(v) => self@.contains_key(key@) && *v == self@[key@],
                None => !self@.contains_key(key@),
            },
    {
        let ghost bs = self.bucket_seqs();
        proof {
            lemma_all_distinct(bs);
        }
        let idx = match self.bucket_idx(key) {
            Some(i) => i,
            None => {
                proof {
                    assert(!has_key(bs, key@));
                }
                return None;
            },
        };
        let blen = self.buckets[idx].len();
        let mut j: usize = 0;
        while j < blen
            invariant
                j <= blen,
                forall|j2: int| 0 <= j2 < j ==> (#[trigger] bs[idx as int][j2]).0@ != key@,
            decreases blen - j,
        {
            let hit = key.probe_eq(&self.buckets[idx][j].0);
            if hit {
                proof {
                    lemma_value_at(bs, idx as int, j as int);
                }
                return Some(&self.buckets[idx][j].1);
            }
            j = j + 1;
        }
        proof {
            assert(!has_key(bs, key@)) by {
                if has_key(bs, key@) {
                    let (i2, j2) = choose|i2: int, j2: int|
                        placed(bs, i2, j2) && (#[trigger] bs[i2][j2]).0@ == key@;
                    assert(K::hash_of(bs[i2][j2].0@) as int % bs.len() as int == i2);
                }
            }
        }
        None
    }

    /// Whether a key with the same view is present: lookup succeeds.
    pub fn contains_key<Q: KeyProbe<K> + ?Sized>(&self, key: &Q) -> (r: bool)
        requires
            self.wf(),
        ensures
            r == self@.contains_key(key@),
    {
        self.get(key).is_some()
    }

    /// Removes the pair whose key has the probe's view, if one is present,
    /// by swapping it with the last pair of its bucket; returns its value.
    #[verifier::loop_isolation(false)]
    pub fn remove<Q: KeyProbe<K> + ?Sized>(&mut self, key: &Q) -> (r: Option<V>)
        requires
            old(self).wf(),
        ensures
            final(self).wf(),
            final(self)@ == old(self)@.remove(key@),
            final(self)@.dom().finite(),
            final(self).bucket_seqs().len() == old(self).bucket_seqs().len(),
            r == (if old(self)@.contains_key(key@) {
                Some(old(self)@[key@])
            } else {
                None::<V>
            }),
    {
        let ghost bs = self.bucket_seqs();
        let ghost mid = self@;
        let ghost snap = *self;
        proof {
            lemma_all_distinct(bs);
        }
        let idx = match self.bucket_idx(key) {
            Some(i) => i,
            None => {
                proof {
                    assert(!has_key(bs, key@));
                    assert(self@ =~= mid.remove(key@));
                    lemma_map_of_len(bs);
                }
                return None;
            },
        };
        let blen = self.buckets[idx].len();
        let mut j: usize = 0;
        while j < blen
            invariant
                *self == snap,
                j <= blen,
                forall|j2: int| 0 <= j2 < j ==> (#[trigger] bs[idx as int][j2]).0@ != key@,
            decreases blen - j,
        {
            let hit = key.probe_eq(&self.buckets[idx][j].0);
            if hit {
                proof {
                    lemma_value_at(bs, idx as int, j as int);
                    lemma_bucket_remove(bs, idx as int, j as int);
                }
                let bucket = &mut self.buckets[idx];
                let old_pair = bucket.swap_remove(j);
                self.items = self.items - 1;
                proof {
                    assert(self.bucket_seqs() =~= swap_removed(bs, idx as int, j as int));
                    lemma_all_distinct(self.bucket_seqs());
                    lemma_map_of_len(self.bucket_seqs());
                }
                return Some(old_pair.1);
            }
            j = j + 1;
        }
        proof {
            assert(!has_key(bs, key@)) by {
                if has_key(bs, key@) {
                    let (i2, j2) = choose|i2: int, j2: int|
                        placed(bs, i2, j2) && (#[trigger] bs[i2][j2]).0@ == key@;
                    assert(K::hash_of(bs[i2][j2].0@) as int % bs.len() as int == i2);
                }
            }
            assert(self@ =~= mid.remove(key@));
            lemma_map_of_len(bs);
        }
        None
    }

    /// The number of live pairs: one per distinct key view in the table.
    pub fn len(&self) -> (n: usize)
        requires
            self.wf(),
        ensures
            n as nat == self@.dom().len(),
    {
        proof {
            lemma_all_distinct(self.bucket_seqs());
            lemma_map_of_len(self.bucket_seqs());
        }
        self.items
    }

    /// Whether the table holds no pair at all.
    pub fn is_empty(&self) -> (r: bool)
        requires
            self.wf(),
        ensures
            r == (self@.dom().len() == 0),
    {
        proof {
            lemma_all_distinct(self.bucket_seqs());
            lemma_map_of_len(self.bucket_seqs());
        }
        self.items == 0
    }

    /// A mutable handle on the value in slot `(b, a)`. The caller may change
    /// the value; the key stays, so the map is updated at that key alone.
    fn slot_mut<'a>(&'a mut self, b: usize, a: usize) -> (r: &'a mut V)
        requires
            old(self).wf(),
            placed(old(self).bucket_seqs(), b as int, a as int),
        ensures
            *r == old(self)@[old(self).bucket_seqs()[b as int][a as int].0@],
            final(self).wf(),
            final(self)@ == old(self)@.insert(
                old(self).bucket_seqs()[b as int][a as int].0@,
                *final(r),
            ),
            final(self)@.dom().finite(),
    {
        let ghost bs = self.bucket_seqs();
        let ghost bvs = self.buckets@;
        let ghost k0 = bs[b as int][a as int].0;
        proof {
            lemma_all_distinct(bs);
            lemma_map_of_len(bs);
            lemma_value_at(bs, b as int, a as int);
            assert forall|v2: V|
                {
                    &&& map_of(bs.update(b as int, bs[b as int].update(a as int, (k0, v2))))
                        == map_of(bs).insert(k0@, v2)
                    &&& placement_ok(bs.update(b as int, bs[b as int].update(a as int, (k0, v2))))
                    &&& buckets_distinct(
                        bs.update(b as int, bs[b as int].update(a as int, (k0, v2))),
                    )
                    &&& total_len(bs.update(b as int, bs[b as int].update(a as int, (k0, v2))))
                        == total_len(bs)
                } by {
                lemma_bucket_set_value(bs, b as int, a as int, v2);
            }
            assert forall|bv: Vec<(K, V)>|
                seqs_of(#[trigger] bvs.update(b as int, bv)) == bs.update(b as int, bv@) by {
                assert(seqs_of(bvs.update(b as int, bv)) =~= bs.update(b as int, bv@));
            }
            assert forall|bv: Vec<(K, V)>| bv@.len() == bs[b as int].len() implies total_len(
                #[trigger] seqs_of(bvs.update(b as int, bv)),
            ) == total_len(bs) by {
                lemma_total_update(bs, b as int, bv@);
            }
            assert forall|v2: V| (#[trigger] map_of(bs).insert(k0@, v2)).dom().finite() by {
                assert(map_of(bs).insert(k0@, v2).dom() =~= map_of(bs).dom().insert(k0@));
            }
        }
        let bucket = &mut self.buckets[b];
        let pr = &mut bucket[a];
        &mut pr.1
    }
}

/// A handle on the slot where an existing pair was found by `entry`.
pub struct OccupiedEntry {
    bucket: usize,
    at: usize,
}

/// The key that `entry` did not find, together with the bucket it belongs
/// in: the right to append exactly one pair.
pub struct VacantEntry<K> {
    key: K,
    bucket: usize,
}

/// The outcome of one `entry` scan: the key's slot, or the place the key
/// would go. Every transition consumes the handle.
pub enum Entry<K> {
    Occupied(OccupiedEntry),
    Vacant(VacantEntry<K>),
}

impl<K: HashKey> VacantEntry<K> {
    /// Appends (key, value) to the remembered bucket and hands back the new
    /// value's slot.
    fn insert<'a, V>(self, map: &'a mut HashMap<K, V>, value: V) -> (r: &'a mut V)
        requires
            Entry::Vacant(self).valid(*old(map)),
        ensures
            *r == value,
            final(map).wf(),
            final(map)@ == old(map)@.insert(self.key@, *final(r)),
            old(map)@.insert(self.key@, *final(r)).dom().finite(),
    {
        let ghost bs = old(map).bucket_seqs();
        let ghost bvs = old(map).buckets@;
        let ghost k0 = self.key;
        let ghost bi = self.bucket as int;
        let ghost n = bs[bi].len() as int;
        proof {
            lemma_all_distinct(bs);
            lemma_map_of_len(bs);
            assert(!has_key(bs, k0@)) by {
                if has_key(bs, k0@) {
                    let (i2, j2) = choose|i2: int, j2: int|
                        placed(bs, i2, j2) && (#[trigger] bs[i2][j2]).0@ == k0@;
                    lemma_value_at(bs, i2, j2);
                }
            }
            assert forall|v2: V|
                {
                    &&& map_of(bs.update(bi, bs[bi].push((k0, v2)))) == map_of(bs).insert(k0@, v2)
                    &&& placement_ok(bs.update(bi, bs[bi].push((k0, v2))))
                    &&& buckets_distinct(bs.update(bi, bs[bi].push((k0, v2))))
                    &&& total_len(bs.update(bi, bs[bi].push((k0, v2)))) == total_len(bs) + 1
                    &&& map_of(bs.update(bi, bs[bi].push((k0, v2)))).dom().finite()
                } by {
                lemma_bucket_append(bs, bi, (k0, v2));
                assert(map_of(bs).insert(k0@, v2).dom() =~= map_of(bs).dom().insert(k0@));
            }
            assert forall|bv: Vec<(K, V)>|
                seqs_of(#[trigger] bvs.update(bi, bv)) == bs.update(bi, bv@) by {
                assert(seqs_of(bvs.update(bi, bv)) =~= bs.update(bi, bv@));
            }
            assert forall|bv: Vec<(K, V)>| bv@.len() == bs[bi].len() + 1 implies total_len(
                #[trigger] seqs_of(bvs.update(bi, bv)),
            ) == total_len(bs) + 1 by {
                lemma_total_update(bs, bi, bv@);
            }
            assert forall|p2: (K, V)|
                (#[trigger] bs[bi].push((k0, value)).update(n, p2)) == bs[bi].push(p2) by {
                assert(bs[bi].push((k0, value)).update(n, p2) =~= bs[bi].push(p2));
            }
            assert forall|v2: V| (#[trigger] map_of(bs).insert(k0@, v2)).dom() == map_of(
                bs,
            ).dom().insert(k0@) by {
                assert(map_of(bs).insert(k0@, v2).dom() =~= map_of(bs).dom().insert(k0@));
            }
            assert(map_of(bs).dom().insert(k0@).finite());
        }
        map.items = map.items + 1;
        let b = self.bucket;
        let bucket = &mut map.buckets[b];
        bucket.push((self.key, value));
        let n_exec = bucket.len();
        let pr = &mut bucket[n_exec - 1];
        &mut pr.1
    }
}

impl<K: HashKey> Entry<K> {
    /// Whether the handle refers to an existing slot.
    pub open spec fn is_occupied(self) -> bool {
        self matches Entry::Occupied(_)
    }

    /// The handle is usable against table `m`: `entry` produced it on `m`
    /// and the table has not been touched since.
    pub closed spec fn valid<V>(self, m: HashMap<K, V>) -> bool {
        match self {
            Entry::Occupied(o) => m.wf() && placed(m.bucket_seqs(), o.bucket as int, o.at as int),
            Entry::Vacant(va) => m.wf() && !m@.contains_key(va.key@) && m.bucket_seqs().len() > 0
                && va.bucket as int == K::hash_of(va.key@) as int % m.bucket_seqs().len() as int
                && m.items < usize::MAX as nat / 4,
        }
    }

    /// The view of the key the handle stands for.
    pub closed spec fn key_view<V>(self, m: HashMap<K, V>) -> K::V {
        match self {
            Entry::Occupied(o) => m.bucket_seqs()[o.bucket as int][o.at as int].0@,
            Entry::Vacant(va) => va.key@,
        }
    }

    /// Returns the slot of the key, inserting the given, already constructed
    /// value first if the key was absent.
    pub fn or_insert<'a, V>(self, map: &'a mut HashMap<K, V>, value: V) -> (r: &'a mut V)
        requires
            self.valid(*old(map)),
        ensures
            *r == (if self.is_occupied() {
                old(map)@[self.key_view(*old(map))]
            } else {
                value
            }),
            final(map).wf(),
            final(map)@ == old(map)@.insert(self.key_view(*old(map)), *final(r)),
            final(map)@.dom().finite(),
    {
        match self {
            Entry::Occupied(o) => map.slot_mut(o.bucket, o.at),
            Entry::Vacant(va) => va.insert(map, value),
        }
    }

    /// Returns the slot of the key; if the key was absent, the producer is
    /// invoked once to make the value to insert. When the key is present the
    /// producer cannot be invoked: this function may call it only where its
    /// own caller was asked to permit the call, which is the vacant case.
    pub fn or_insert_with<'a, V, F: FnOnce() -> V>(self, map: &'a mut HashMap<K, V>, maker: F) -> (r:
        &'a mut V)
        requires
            self.valid(*old(map)),
            !self.is_occupied() ==> call_requires(maker, ()),
        ensures
            final(map).wf(),
            final(map)@ == old(map)@.insert(self.key_view(*old(map)), *final(r)),
            final(map)@.dom().finite(),
            self.is_occupied() ==> *r == old(map)@[self.key_view(*old(map))],
            !self.is_occupied() ==> call_ensures(maker, (), *r),
    {
        match self {
            Entry::Occupied(o) => map.slot_mut(o.bucket, o.at),
            Entry::Vacant(va) => {
                let value = maker();
                va.insert(map, value)
            },
        }
    }

    /// Returns the slot of the key, inserting the value type's default if
    /// the key was absent.
    pub fn or_default<'a, V: Default>(self, map: &'a mut HashMap<K, V>) -> (r: &'a mut V)
        requires
            self.valid(*old(map)),
        ensures
            final(map).wf(),
            final(map)@ == old(map)@.insert(self.key_view(*old(map)), *final(r)),
            final(map)@.dom().finite(),
            self.is_occupied() ==> *r == old(map)@[self.key_view(*old(map))],
            !self.is_occupied() ==> call_ensures(V::default, (), *r),
    {
        match self {
            Entry::Occupied(o) => map.slot_mut(o.bucket, o.at),
            Entry::Vacant(va) => va.insert(map, V::default()),
        }
    }
}

impl<K: HashKey, V> HashMap<K, V> {
    /// One scan for the key's slot, after applying the growth policy:
    /// an occupied handle on the slot holding a key with an equal view, or a
    /// vacant handle carrying the key and its target bucket.
    #[verifier::loop_isolation(false)]
    pub fn entry(&mut self, key: K) -> (e: Entry<K>)
        requires
            old(self).wf(),
            old(self)@.dom().len() < Self::capacity_limit(),
        ensures
            final(self).wf(),
            final(self)@ == old(self)@,
            final(self).bucket_seqs().len() == Self::grown_capacity(
                old(self).bucket_seqs().len(),
                old(self)@.dom().len(),
            ),
            final(self).bucket_seqs().len() > 0,
            e.valid(*final(self)),
            e.key_view(*final(self)) == key@,
            e.is_occupied() == old(self)@.contains_key(key@),
    {
        proof {
            lemma_all_distinct(self.bucket_seqs());
            lemma_map_of_len(self.bucket_seqs());
        }
        if self.buckets.len() == 0 || self.items > 3 * self.buckets.len() / 4 {
            self.resize();
        }
        proof {
            assert(self.items < usize::MAX as nat / 4);
        }
        let idx = match self.bucket_idx(&key) {
            Some(i) => i,
            None => unreached(),
        };
        let ghost bs = self.bucket_seqs();
        proof {
            lemma_all_distinct(bs);
        }
        let blen = self.buckets[idx].len();
        let mut j: usize = 0;
        while j < blen
            invariant
                j <= blen,
                forall|j2: int| 0 <= j2 < j ==> (#[trigger] bs[idx as int][j2]).0@ != key@,
            decreases blen - j,
        {
            let hit = self.buckets[idx][j].0.key_eq(&key);
            if hit {
                proof {
                    lemma_value_at(bs, idx as int, j as int);
                }
                return Entry::Occupied(OccupiedEntry { bucket: idx, at: j });
            }
            j = j + 1;
        }
        proof {
            assert(!has_key(bs, key@)) by {
                if has_key(bs, key@) {
                    let (i2, j2) = choose|i2: int, j2: int|
                        placed(bs, i2, j2) && (#[trigger] bs[i2][j2]).0@ == key@;
                    assert(K::hash_of(bs[i2][j2].0@) as int % bs.len() as int == i2);
                }
            }
        }
        Entry::Vacant(VacantEntry { key, bucket: idx })
    }
}

/// A borrowing iterator over a table: walks buckets in order and, within a
/// bucket, slots in order, yielding a pair of references at a time. A fresh
/// one can be made from the same table at any time with `iter`.
pub struct Iter<'a, K: HashKey, V> {
    table: &'a HashMap<K, V>,
    bucket: usize,
    at: usize,
}

impl<'a, K: HashKey, V> Iter<'a, K, V> {
    /// The table being walked.
    pub closed spec fn src(&self) -> HashMap<K, V> {
        *self.table
    }

    /// The cursor stays within the bucket layout.
    pub closed spec fn inv(&self) -> bool {
        &&& self.bucket <= self.src().bucket_seqs().len()
        &&& (self.bucket < self.src().bucket_seqs().len() ==> self.at
            <= self.src().bucket_seqs()[self.bucket as int].len())
        &&& (self.bucket >= self.src().bucket_seqs().len() ==> self.at == 0)
    }

    /// The pairs not yet yielded, in the order they will come.
    pub closed spec fn remaining(&self) -> Seq<(K, V)> {
        iter_rest(self.src().bucket_seqs(), self.bucket as int, self.at as int)
    }

    /// Yields the next pair in bucket order, or nothing once every pair has
    /// been yielded.
    #[verifier::loop_isolation(false)]
    pub fn next(&mut self) -> (r: Option<(&'a K, &'a V)>)
        requires
            old(self).inv(),
        ensures
            final(self).inv(),
            final(self).src() == old(self).src(),
            match r {
                Some(p) => old(self).remaining().len() > 0 && (*p.0, *p.1) == old(self).remaining().first() && final(self).remaining() == old(self).remaining().drop_first(),
                None => old(self).remaining().len() == 0 && final(self).remaining() == old(self).remaining(),
            },
    {
        let t = self.table;
        let ghost bs = t.bucket_seqs();
        loop
            invariant
                self.table == t,
                self.inv(),
                self.remaining() == old(self).remaining(),
            decreases bs.len() - self.bucket,
        {
            if self.bucket >= t.buckets.len() {
                return None;
            }
            if self.at < t.buckets[self.bucket].len() {
                proof {
                    lemma_iter_step(bs, self.bucket as int, self.at as int);
                }
                let pr = &t.buckets[self.bucket][self.at];
                self.at = self.at + 1;
                return Some((&pr.0, &pr.1));
            }
            proof {
                lemma_iter_advance(bs, self.bucket as int);
            }
            self.bucket = self.bucket + 1;
            self.at = 0;
        }
    }
}

/// A consuming iterator: owns the table and drains each bucket from its end,
/// in ascending bucket order, handing ownership of one pair at a time.
pub struct IntoIter<K: HashKey, V> {
    table: HashMap<K, V>,
    bucket: usize,
}

impl<K: HashKey, V> IntoIter<K, V> {
    /// The cursor stays within the bucket layout.
    pub closed spec fn inv(&self) -> bool {
        self.bucket <= self.table.bucket_seqs().len()
    }

    /// The pairs not yet handed out.
    pub closed spec fn remaining(&self) -> Seq<(K, V)> {
        drain_rest(self.table.bucket_seqs(), self.bucket as int)
    }

    /// Hands out one of the remaining pairs (the last of the first nonempty
    /// bucket), or nothing once the table is drained.
    #[verifier::loop_isolation(false)]
    pub fn next(&mut self) -> (r: Option<(K, V)>)
        requires
            old(self).inv(),
        ensures
            final(self).inv(),
            match r {
                Some(p) => exists|n: int|
                    0 <= n < old(self).remaining().len() && p == old(self).remaining()[n] && final(self).remaining() == old(self).remaining().remove(n),
                None => old(self).remaining().len() == 0 && final(self).remaining() == old(self).remaining(),
            },
    {
        loop
            invariant
                self.inv(),
                self.remaining() == old(self).remaining(),
            decreases self.table.buckets@.len() - self.bucket,
        {
            if self.bucket >= self.table.buckets.len() {
                return None;
            }
            let ghost bs = self.table.bucket_seqs();
            let b = self.bucket;
            let blen = self.table.buckets[b].len();
            if blen > 0 {
                proof {
                    lemma_drain_pop(bs, b as int);
                }
                let bucket = &mut self.table.buckets[b];
                let p = match bucket.pop() {
                    Some(p) => p,
                    None => unreached(),
                };
                proof {
                    let ghost n = bs[b as int].len() - 1;
                    assert(self.table.bucket_seqs() =~= bs.update(
                        b as int,
                        bs[b as int].drop_last(),
                    ));
                    assert(p == old(self).remaining()[n]);
                    assert(self.remaining() == old(self).remaining().remove(n));
                }
                return Some(p);
            }
            proof {
                lemma_drain_advance(bs, b as int);
            }
            self.bucket = self.bucket + 1;
        }
    }
}

impl<K: HashKey, V> HashMap<K, V> {
    /// A fresh borrowing iterator over all pairs, in bucket order.
    pub fn iter<'a>(&'a self) -> (it: Iter<'a, K, V>)
        ensures
            it.inv(),
            it.src() == *self,
            it.remaining() == self.pairs(),
    {
        proof {
            lemma_iter_start(self.bucket_seqs());
        }
        Iter { table: self, bucket: 0, at: 0 }
    }

    /// Consumes the table into a draining iterator: the pairs leave one at a
    /// time, and the table itself is gone.
    pub fn into_iter(self) -> (it: IntoIter<K, V>)
        ensures
            it.inv(),
            it.remaining() == self.pairs(),
    {
        proof {
            lemma_drain_start(self.bucket_seqs());
        }
        IntoIter { table: self, bucket: 0 }
    }

    /// Builds a table by inserting the pairs in order into an empty table:
    /// a later pair overwrites an earlier one with the same key view.
    #[verifier::loop_isolation(false)]
    pub fn from_pairs(pairs: Vec<(K, V)>) -> (m: Self)
        requires
            pairs@.len() < Self::capacity_limit(),
        ensures
            m.wf(),
            m@ == pair_map(pairs@),
            m@.dom().finite(),
    {
        let ghost all = pairs@;
        let mut rest = pairs;
        let mut m = HashMap::new();
        let ghost done: Seq<(K, V)> = Seq::empty();
        proof {
            assert(pair_map(done) =~= Map::<K::V, V>::empty());
            assert(done + rest@ =~= all);
            lemma_pair_map_len(done);
        }
        while rest.len() > 0
            invariant
                m.wf(),
                m@ == pair_map(done),
                m@.dom().finite(),
                done + rest@ =~= all,
                m@.dom().len() <= done.len(),
            decreases rest@.len(),
        {
            let ghost done_pre = done;
            let p = rest.remove(0);
            m.insert(p.0, p.1);
            proof {
                done = done_pre.push(p);
                assert(done.drop_last() =~= done_pre);
                assert(done + rest@ =~= all);
                lemma_pair_map_len(done);
            }
        }
        proof {
            assert(done =~= all);
        }
        m
    }
}

/// Enumeration is exact: the pair sequence the iterators yield holds every
/// key of the table exactly once, each beside its mapped value, and nothing
/// else.
pub proof fn lemma_pairs_match_view<K: HashKey, V>(m: HashMap<K, V>)
    requires
        m.wf(),
    ensures
        m.pairs().len() == m@.dom().len(),
        forall|n: int|
            0 <= n < m.pairs().len() ==> m@.contains_key((#[trigger] m.pairs()[n]).0@)
                && m@[m.pairs()[n].0@] == m.pairs()[n].1,
        forall|kv: K::V|
            #[trigger] m@.contains_key(kv) ==> exists|n: int|
                0 <= n < m.pairs().len() && (#[trigger] m.pairs()[n]).0@ == kv,
        forall|n1: int, n2: int|
            0 <= n1 < n2 < m.pairs().len() ==> (#[trigger] m.pairs()[n1]).0@ != (
            #[trigger] m.pairs()[n2]).0@,
{
    let bs = m.bucket_seqs();
    let fl = m.pairs();
    lemma_all_distinct(bs);
    lemma_map_of_len(bs);
    lemma_flat_total(bs);
    lemma_flat_distinct(bs);
    assert forall|n: int| 0 <= n < fl.len() implies m@.contains_key((#[trigger] fl[n]).0@)
        && m@[fl[n].0@] == fl[n].1 by {
        lemma_flat_pos(bs, n);
        let (i, j) = choose|i: int, j: int| placed(bs, i, j) && fl[n] == (#[trigger] bs[i][j]);
        lemma_value_at(bs, i, j);
    }
    assert forall|kv: K::V| #[trigger] m@.contains_key(kv) implies exists|n: int|
        0 <= n < fl.len() && (#[trigger] fl[n]).0@ == kv by {
        let (i, j) = choose|i: int, j: int| placed(bs, i, j) && (#[trigger] bs[i][j]).0@ == kv;
        lemma_flat_slot(bs, i, j);
        let n = choose|n: int| 0 <= n < fl.len() && fl[n] == bs[i][j];
        assert(0 <= n < fl.len() && fl[n].0@ == kv);
    }
}

} // verus!
