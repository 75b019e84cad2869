//! Shard selection: the power-of-two shard-count computation and the
//! bitmask routing of a 64-bit key hash to a shard index.

use vstd::arithmetic::power::pow;
use vstd::arithmetic::power2::{
    is_pow2, is_pow2_equiv, lemma2_to64, lemma2_to64_rest, lemma_pow2_pos,
    lemma_pow2_strictly_increases, lemma_pow2_unfold, pow2,
};
use vstd::bits::{lemma_u64_low_bits_mask_is_mod, low_bits_mask};
use vstd::prelude::*;

verus! {

/// The largest shard count a constructor may request. Keeps the
/// power-of-two rounding inside `usize` on every architecture.
pub const MAX_SHARDS: usize = 0x8000_0000;

/// The shard index that `hash` routes to in a table of `shard_count`
/// shards: the hash reduced modulo the shard count.
pub open spec fn route_spec(hash: u64, shard_count: usize) -> int {
    hash as int % (shard_count as int)
}

/// A power-of-two `usize` is `pow2(k)` for an exponent `k` below the
/// width of `u64`.
proof fn lemma_pow2_exponent(c: usize) -> (k: nat)
    requires
        is_pow2(c as int),
    ensures
        k < 64,
        c == pow2(k),
{
    is_pow2_equiv(c as int);
    let k = choose|i: nat| pow(2, i) == c as int;
    assert(c == pow2(k));
    if k >= 64 {
        lemma2_to64_rest();
        if k > 64 {
            lemma_pow2_strictly_increases(64, k);
        }
        assert(pow2(k) >= pow2(64));
        assert(c <= u64::MAX);
        assert(false);
    }
    k
}

/// Routes a key's hash to a shard index with a bitmask, which agrees with
/// reduction modulo the shard count because the shard count is a power of
/// two.
pub fn route_key(hash: u64, shard_count: usize) -> (i: usize)
    requires
        is_pow2(shard_count as int),
    ensures
        i == route_spec(hash, shard_count),
        i < shard_count,
{
    proof {
        let k = lemma_pow2_exponent(shard_count);
        lemma_pow2_pos(k);
        lemma_u64_low_bits_mask_is_mod(hash, k);
        assert((shard_count as u64 - 1) as u64 == low_bits_mask(k) as u64);
    }
    let c: u64 = shard_count as u64;
    let r: u64 = hash & (c - 1);
    r as usize
}

/// The smallest power of two that is at least `n` (and at least 1).
///
/// Mirrors the coercion every shard-count-accepting constructor applies, so
/// that a requested count is always rounded up rather than rejected.
pub fn next_pow_of_two(n: usize) -> (p: usize)
    requires
        n <= MAX_SHARDS,
    ensures
        is_pow2(p as int),
        p >= n,
        n <= 1 ==> p == 1,
        n > 1 ==> p < 2 * n,
        is_pow2(n as int) ==> p == n,
{
    let mut p: usize = 1;
    proof {
        reveal(is_pow2);
    }
    while p < n
        invariant
            is_pow2(p as int),
            p <= MAX_SHARDS,
            n <= MAX_SHARDS,
            p == 1 || p < 2 * n,
        decreases 2 * n - p,
    {
        proof {
            reveal(is_pow2);
            assert((2 * p) as int / 2 == p as int);
            let k = lemma_pow2_exponent(p);
            lemma2_to64();
            if k >= 31 {
                if k > 31 {
                    lemma_pow2_strictly_increases(31, k);
                }
                assert(p >= 0x8000_0000usize);
                assert(false);
            }
            lemma_pow2_unfold((k + 1) as nat);
            if k + 1 < 31 {
                lemma_pow2_strictly_increases((k + 1) as nat, 31);
            }
            assert(2 * p == pow2((k + 1) as nat));
            assert(2 * p <= 0x8000_0000usize);
        }
        p = p * 2;
    }
    proof {
        if is_pow2(n as int) && p != n {
            let kn = lemma_pow2_exponent(n);
            let kp = lemma_pow2_exponent(p);
            if kp < kn {
                lemma_pow2_strictly_increases(kp, kn);
            } else {
                if kp > kn + 1 {
                    lemma_pow2_strictly_increases((kn + 1) as nat, kp);
                }
                lemma_pow2_unfold((kn + 1) as nat);
                assert(p >= 2 * n);
            }
        }
    }
    p
}

/// The default shard count for a map: the smallest power of two that is at
/// least four times the available parallelism. More shards than workers
/// makes it unlikely that two concurrently active workers hash into the
/// same shard, while keeping the shard array a reasonable size.
///
/// The caller supplies the process's available parallelism (a count of
/// usable workers; zero is treated as one), since querying the platform is
/// an environment read that stays outside this library.
pub fn shard_count(parallelism: usize) -> (c: usize)
    requires
        parallelism <= 0x2000_0000,
    ensures
        is_pow2(c as int),
        c >= 4,
        parallelism >= 1 ==> c >= 4 * parallelism && c < 8 * parallelism,
        parallelism <= 1 ==> c == 4,
{
    let par: usize = if parallelism == 0 {
        1
    } else {
        parallelism
    };
    let c = next_pow_of_two(par * 4);
    proof {
        if par == 1 {
            reveal_with_fuel(is_pow2, 5);
            assert(c >= 4 && c < 8);
            assert(c == 4 || c == 5 || c == 6 || c == 7);
            assert(c == 4);
        }
    }
    c
}

} // verus!
