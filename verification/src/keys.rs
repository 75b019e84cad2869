//! Keys and hashing.
//!
//! A map key must offer an equality test that agrees with its view, and a
//! hasher must compute a digest that depends on the key's view alone. That
//! determinism is what lets the map prove that a key is always looked up in
//! the same shard it was stored in, and it is the one demand placed on a
//! pluggable hash function.

use vstd::prelude::*;
use vstd::string::StrSliceExecFns;

verus! {

/// A type usable as a map key: exact, view-level equality is decidable.
pub trait ShardKey: View + Sized {
    /// Whether `self` and `other` are the same key, decided on the keys'
    /// views.
    fn key_eq(&self, other: &Self) -> (b: bool)
        ensures
            b == (self@ == other@),
    ;
}

impl ShardKey for u64 {
    fn key_eq(&self, other: &Self) -> (b: bool)
        ensures
            b == (self@ == other@),
    {
        *self == *other
    }
}

impl ShardKey for usize {
    fn key_eq(&self, other: &Self) -> (b: bool)
        ensures
            b == (self@ == other@),
    {
        *self == *other
    }
}

impl ShardKey for String {
    fn key_eq(&self, other: &Self) -> (b: bool)
        ensures
            b == (self@ == other@),
    {
        (*self).eq(other)
    }
}

/// A deterministic 64-bit hash function over keys of type `K`.
///
/// The digest is a function of the key's view alone, so equal keys hash
/// alike in every map that uses the same hasher type. Any type meeting
/// that contract may replace the default hasher.
pub trait KeyHasher<K: View>: Sized {
    /// The digest of a key with this hasher, as a mathematical function of
    /// the key's view.
    spec fn spec_hash(v: K::V) -> u64;

    /// Computes the digest of `key`.
    fn hash_key(&self, key: &K) -> (h: u64)
        ensures
            h == Self::spec_hash(key@),
    ;
}

/// The offset basis of the 64-bit FNV-1a hash.
pub const FNV_OFFSET: u64 = 0xcbf2_9ce4_8422_2325;

/// The multiplier of the 64-bit FNV-1a hash.
pub const FNV_PRIME: u64 = 0x0000_0100_0000_01b3;

/// One FNV-1a round: fold `unit` into the running digest `h`.
pub open spec fn fnv_step(h: u64, unit: u64) -> u64 {
    (h ^ unit).wrapping_mul(FNV_PRIME)
}

/// The FNV-1a digest of a sequence of characters.
pub open spec fn fnv_chars(s: Seq<char>) -> u64
    decreases s.len(),
{
    if s.len() == 0 {
        FNV_OFFSET
    } else {
        fnv_step(fnv_chars(s.drop_last()), s.last() as u64)
    }
}

/// The FNV-1a digest of the eight bytes of `v`, least significant first.
pub open spec fn fnv_u64_below(v: u64, n: int) -> u64
    decreases n,
{
    if n <= 0 {
        FNV_OFFSET
    } else {
        fnv_step(fnv_u64_below(v, n - 1), (v >> (8 * (n - 1)) as u64) & 0xff)
    }
}

/// The default hasher: 64-bit FNV-1a over the units of the key.
pub struct FnvHasher;

impl KeyHasher<String> for FnvHasher {
    open spec fn spec_hash(v: Seq<char>) -> u64 {
        fnv_chars(v)
    }

    fn hash_key(&self, key: &String) -> (h: u64)
        ensures
            h == <Self as KeyHasher<String>>::spec_hash(key@),
    {
        let s: &str = key.as_str();
        let n: usize = s.unicode_len();
        let mut h: u64 = FNV_OFFSET;
        let mut i: usize = 0;
        while i < n
            invariant
                i <= n,
                n == s@.len(),
                s@ == key@,
                h == fnv_chars(s@.subrange(0, i as int)),
            decreases n - i,
        {
            let c: char = s.get_char(i);
            h = (h ^ (c as u64)).wrapping_mul(FNV_PRIME);
            proof {
                let pre = s@.subrange(0, i as int);
                let post = s@.subrange(0, i + 1);
                assert(post.drop_last() =~= pre);
                assert(post.last() == s@[i as int]);
            }
            i = i + 1;
        }
        proof {
            assert(s@.subrange(0, n as int) =~= s@);
        }
        h
    }
}

impl KeyHasher<u64> for FnvHasher {
    open spec fn spec_hash(v: u64) -> u64 {
        fnv_u64_below(v, 8)
    }

    fn hash_key(&self, key: &u64) -> (h: u64)
        ensures
            h == <Self as KeyHasher<u64>>::spec_hash(key@),
    {
        let v: u64 = *key;
        let mut h: u64 = FNV_OFFSET;
        let mut i: u64 = 0;
        while i < 8
            invariant
                i <= 8,
                h == fnv_u64_below(v, i as int),
            decreases 8 - i,
        {
            let b: u64 = (v >> (8 * i)) & 0xff;
            h = (h ^ b).wrapping_mul(FNV_PRIME);
            i = i + 1;
        }
        h
    }
}

/// A hasher whose digest is the key itself.
///
/// Routing then follows directly from the key's value, which makes it easy
/// to construct keys that are known to land in chosen shards.
pub struct IdentityHasher;

impl KeyHasher<u64> for IdentityHasher {
    open spec fn spec_hash(v: u64) -> u64 {
        v
    }

    fn hash_key(&self, key: &u64) -> (h: u64)
        ensures
            h == Self::spec_hash(key@),
    {
        *key
    }
}

} // verus!
