//! Keys of the table. Bucket placement and lookup both go through the
//! `HashKey` trait: the hash and the equality test of a key are functions of
//! its abstract view alone, so that two keys with equal views always land in
//! the same bucket and compare equal.

use vstd::prelude::*;
use vstd::string::StrSliceExecFns;

verus! {

/// A type usable as a table key: it has an abstract view, a hash that is a
/// function of that view, and an executable equality test that decides
/// equality of views.
pub trait HashKey: View + Sized {
    /// The hash of a key with the given abstract value.
    spec fn hash_of(v: Self::V) -> u64;

    /// Computes this key's hash.
    fn key_hash(&self) -> (h: u64)
        ensures
            h == Self::hash_of(self@),
    ;

    /// Decides whether two keys have the same abstract value.
    fn key_eq(&self, other: &Self) -> (r: bool)
        ensures
            r == (self@ == other@),
    ;
}

/// Offset basis of the 64-bit FNV-1a hash.
pub const FNV_OFFSET: u64 = 0xcbf29ce484222325;

/// Prime of the 64-bit FNV-1a hash.
pub const FNV_PRIME: u64 = 0x100000001b3;

/// One FNV-1a round: fold one character into the running hash.
pub open spec fn fnv_step(h: u64, c: char) -> u64 {
    (h ^ (c as u64)).wrapping_mul(FNV_PRIME)
}

/// The 64-bit FNV-1a hash of a character sequence.
pub open spec fn fnv_hash(s: Seq<char>) -> u64
    decreases s.len(),
{
    if s.len() == 0 {
        FNV_OFFSET
    } else {
        fnv_step(fnv_hash(s.drop_last()), s.last())
    }
}

/// Computes the FNV-1a hash of a string slice's characters.
fn fnv_hash_str(s: &str) -> (h: u64)
    ensures
        h == fnv_hash(s@),
{
    let n: usize = s.unicode_len();
    let mut h: u64 = FNV_OFFSET;
    let mut i: usize = 0;
    while i < n
        invariant
            n == s@.len(),
            i <= n,
            h == fnv_hash(s@.take(i as int)),
        decreases n - i,
    {
        let c = s.get_char(i);
        proof {
            assert(s@.take(i + 1).drop_last() =~= s@.take(i as int));
            assert(s@.take(i + 1).last() == s@[i as int]);
        }
        h = (h ^ (c as u64)).wrapping_mul(FNV_PRIME);
        i = i + 1;
    }
    proof {
        assert(s@.take(n as int) =~= s@);
    }
    h
}

/// Decides equality of two string slices character by character; a `str`'s
/// view is its character sequence, so this decides view equality.
fn str_eq_chars(a: &str, b: &str) -> (r: bool)
    ensures
        r == (a@ == b@),
{
    let na = a.unicode_len();
    let nb = b.unicode_len();
    if na != nb {
        return false;
    }
    let mut i: usize = 0;
    while i < na
        invariant
            na == a@.len(),
            na == b@.len(),
            i <= na,
            forall|j: int| 0 <= j < i ==> a@[j] == b@[j],
        decreases na - i,
    {
        if a.get_char(i) != b.get_char(i) {
            return false;
        }
        i = i + 1;
    }
    proof {
        assert(a@ =~= b@);
    }
    true
}

impl HashKey for String {
    open spec fn hash_of(v: Seq<char>) -> u64 {
        fnv_hash(v)
    }

    fn key_hash(&self) -> (h: u64) {
        fnv_hash_str(self.as_str())
    }

    fn key_eq(&self, other: &Self) -> (r: bool) {
        self.eq(other)
    }
}

/// A lookup probe for keys of type `K`: it shares `K`'s view type, hashes
/// exactly as `K` does, and decides view equality against a stored key, so a
/// table can be searched by a cheap borrowed value without constructing an
/// owned key.
pub trait KeyProbe<K: HashKey>: View<V = K::V> {
    /// Computes the probe's hash, which must agree with the key type's hash
    /// on every shared view.
    fn probe_hash(&self) -> (h: u64)
        ensures
            h == K::hash_of(self@),
    ;

    /// Decides whether the probe and a stored key have the same view.
    fn probe_eq(&self, key: &K) -> (r: bool)
        ensures
            r == (self@ == key@),
    ;
}

impl<K: HashKey> KeyProbe<K> for K {
    fn probe_hash(&self) -> (h: u64) {
        self.key_hash()
    }

    fn probe_eq(&self, key: &K) -> (r: bool) {
        self.key_eq(key)
    }
}

impl KeyProbe<String> for str {
    fn probe_hash(&self) -> (h: u64) {
        fnv_hash_str(self)
    }

    fn probe_eq(&self, key: &String) -> (r: bool) {
        str_eq_chars(self, key.as_str())
    }
}

/// Multiplier used to spread integer keys over the hash range.
pub const GOLDEN: u64 = 0x9e3779b97f4a7c15;

impl HashKey for u64 {
    open spec fn hash_of(v: u64) -> u64 {
        v.wrapping_mul(GOLDEN)
    }

    fn key_hash(&self) -> (h: u64) {
        (*self).wrapping_mul(GOLDEN)
    }

    fn key_eq(&self, other: &Self) -> (r: bool) {
        *self == *other
    }
}

} // verus!
