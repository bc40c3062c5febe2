//! The index mapping: for each symbol, a deterministic, strictly
//! increasing, unbounded sequence of stream positions, seeded from the
//! symbol's hash.
//!
//! Each step multiplies a 64-bit word by a fixed odd constant (wrapping)
//! and advances the position by the ceiling of
//! `(last + 1.5) * (2^32 / sqrt(r + 1) - 1)`, computed exactly in integer
//! arithmetic over the integer square root, with a floor of one so that
//! the positions strictly increase. The square-root shape makes the `k`-th
//! hit of a symbol land near position `k * k`, which gives the stream its
//! rateless density profile.

use vstd::prelude::*;
use crate::symbol::Symbol;

verus! {

/// Multiplier of the multiplicative pseudo-random step.
pub const PRNG_MULTIPLIER: u64 = 0xda94_2042_e4dd_58b5;

/// The pseudo-random word that follows `p`: a wrapping 64-bit multiply
/// by [`PRNG_MULTIPLIER`].
pub closed spec fn spec_next_prng(p: u64) -> u64 {
    vstd::wrapping::u64_specs::wrapping_mul(p, PRNG_MULTIPLIER)
}

/// The greatest `s` with `s * s <= n`, for `n >= 0`.
pub closed spec fn spec_isqrt(n: int) -> int {
    choose|s: int| 0 <= s && #[trigger] (s * s) <= n && n < (s + 1) * (s + 1)
}

/// An integer square root exists for every `n >= 0`.
pub proof fn lemma_isqrt_exists(n: int)
    requires
        n >= 0,
    ensures
        exists|s: int| 0 <= s && #[trigger] (s * s) <= n && n < (s + 1) * (s + 1),
    decreases n,
{
    if n == 0 {
        let s0: int = 0;
        assert(0 <= s0 && s0 * s0 <= n && n < (s0 + 1) * (s0 + 1)) by (nonlinear_arith)
            requires
                n == 0,
                s0 == 0,
        ;
    } else {
        lemma_isqrt_exists(n - 1);
        let s = choose|s: int| 0 <= s && #[trigger] (s * s) <= n - 1 && n - 1 < (s + 1) * (s + 1);
        if (s + 1) * (s + 1) <= n {
            assert(n < (s + 2) * (s + 2)) by (nonlinear_arith)
                requires
                    n - 1 < (s + 1) * (s + 1),
                    0 <= s,
            ;
            assert(0 <= s + 1 && (s + 1) * (s + 1) <= n && n < (s + 2) * (s + 2));
        } else {
            assert(0 <= s && s * s <= n && n < (s + 1) * (s + 1));
        }
    }
}

/// The integer square root is unique.
pub proof fn lemma_isqrt_unique(n: int, a: int, b: int)
    requires
        0 <= a,
        0 <= b,
        a * a <= n,
        n < (a + 1) * (a + 1),
        b * b <= n,
        n < (b + 1) * (b + 1),
    ensures
        a == b,
{
    assert(a == b) by (nonlinear_arith)
        requires
            0 <= a,
            0 <= b,
            a * a <= n,
            n < (a + 1) * (a + 1),
            b * b <= n,
            n < (b + 1) * (b + 1),
    ;
}

/// [`spec_isqrt`] satisfies its defining bounds.
pub proof fn lemma_isqrt_bounds(n: int)
    requires
        n >= 0,
    ensures
        0 <= spec_isqrt(n),
        spec_isqrt(n) * spec_isqrt(n) <= n,
        n < (spec_isqrt(n) + 1) * (spec_isqrt(n) + 1),
{
    lemma_isqrt_exists(n);
}

/// The integer square root, by binary search.
fn isqrt_u128(n: u128) -> (r: u128)
    requires
        n <= 0x1_0000_0000_0000_0000,
    ensures
        r == spec_isqrt(n as int),
        r * r <= n,
        n < (r + 1) * (r + 1),
        r <= 0x1_0000_0000,
{
    let mut lo: u128 = 0;
    let mut hi: u128 = 0x1_0000_0000;
    proof {
        assert((0x1_0000_0000u128 + 1) * (0x1_0000_0000u128 + 1) > 0x1_0000_0000_0000_0000)
            by (nonlinear_arith);
    }
    while lo < hi
        invariant
            0 <= lo <= hi <= 0x1_0000_0000,
            lo * lo <= n,
            n < (hi + 1) * (hi + 1),
        decreases hi - lo,
    {
        let mid: u128 = lo + (hi - lo + 1) / 2;
        proof {
            assert(mid * mid <= 0x1_0000_0000u128 * 0x1_0000_0000u128) by (nonlinear_arith)
                requires
                    0 <= mid <= 0x1_0000_0000u128,
            ;
            assert(0x1_0000_0000u128 * 0x1_0000_0000u128 == 0x1_0000_0000_0000_0000)
                by (nonlinear_arith);
        }
        if mid * mid <= n {
            lo = mid;
        } else {
            hi = mid - 1;
        }
    }
    proof {
        lemma_isqrt_bounds(n as int);
        lemma_isqrt_unique(n as int, lo as int, spec_isqrt(n as int));
    }
    lo
}

/// The gap the mapping advances by, given the position `last` just
/// yielded and the fresh pseudo-random word `r`: with `s` the integer
/// square root of `r + 1` and `m = 2 * last + 3`, the ceiling of
/// `m * (2^32 - s) / (2 * s)`, and at least 1.
pub closed spec fn spec_diff(last: u64, r: u64) -> int {
    let s = spec_isqrt(r as int + 1);
    let m = 2 * (last as int) + 3;
    let num = m * (0x1_0000_0000 - s);
    let den = 2 * s;
    let d = (num + den - 1) / den;
    if d < 1 {
        1
    } else {
        d
    }
}

/// The position the mapping holds after yielding `last` and drawing the
/// pseudo-random word `r`: `last` plus the gap, saturating at the top of
/// the 64-bit range.
pub closed spec fn spec_next_last(last: u64, r: u64) -> u64 {
    if last + spec_diff(last, r) > u64::MAX {
        u64::MAX
    } else {
        (last + spec_diff(last, r)) as u64
    }
}

/// The mapping state after `k` steps from seed `h`: the pseudo-random
/// word, and the position that the next call yields.
pub closed spec fn spec_state(h: u64, k: nat) -> (u64, u64)
    decreases k,
{
    if k == 0 {
        (h, 0u64)
    } else {
        let prev = spec_state(h, (k - 1) as nat);
        let p = spec_next_prng(prev.0);
        (p, spec_next_last(prev.1, p))
    }
}

/// The `k`-th position of the mapping seeded with `h`.
pub open spec fn spec_position(h: u64, k: nat) -> u64 {
    spec_state(h, k).1
}

/// The first mapping state is the seed with position zero, and one step
/// advances the word and the position as the step functions say.
pub proof fn lemma_state_first_step(h: u64)
    ensures
        spec_state(h, 0) == (h, 0u64),
        spec_state(h, 1).0 == spec_next_prng(h),
        spec_state(h, 1).1 == spec_next_last(0u64, spec_next_prng(h)),
{
}

/// Each mapping state follows from the one before it by one step of the
/// pseudo-random word and one advance of the position.
pub proof fn lemma_state_unfold(h: u64, k: nat)
    requires
        k >= 1,
    ensures
        spec_state(h, k).0 == spec_next_prng(spec_state(h, (k - 1) as nat).0),
        spec_state(h, k).1 == spec_next_last(spec_state(h, (k - 1) as nat).1, spec_state(h, k).0),
{
}

/// The per-symbol generator of stream positions.
pub struct RandomMapping {
    prng: u64,
    last_idx: u64,
}

impl RandomMapping {
    /// The pseudo-random word the next step will multiply.
    pub closed spec fn spec_prng(self) -> u64 {
        self.prng
    }

    /// The position the next call to [`Self::next_index`] yields.
    pub closed spec fn spec_last(self) -> u64 {
        self.last_idx
    }

    /// Seeds a mapping from a symbol's hash. Two symbols with equal
    /// hashes receive identical mappings.
    pub fn new<T: Symbol>(given_symbol: &T) -> (r: Self)
        ensures
            r.spec_prng() == given_symbol.spec_hash(),
            r.spec_last() == 0,
    {
        let prng = given_symbol.hash_();
        RandomMapping { prng, last_idx: 0 }
    }

    /// Yields the current position and advances the pseudo-random state
    /// and the position for the following call. Positions strictly
    /// increase until they saturate at the top of the 64-bit range.
    pub fn next_index(&mut self) -> (r: u64)
        ensures
            r == old(self).spec_last(),
            final(self).spec_prng() == spec_next_prng(old(self).spec_prng()),
            final(self).spec_last() == spec_next_last(old(self).spec_last(), final(self).spec_prng()),
            old(self).spec_last() < u64::MAX ==> final(self).spec_last() > old(self).spec_last(),
    {
        self.prng = self.prng.wrapping_mul(PRNG_MULTIPLIER);
        let r = self.prng;
        let index_to_return = self.last_idx;

        let n: u128 = r as u128 + 1;
        let s: u128 = isqrt_u128(n);
        proof {
            assert(s >= 1) by (nonlinear_arith)
                requires
                    n >= 1,
                    n < (s + 1) * (s + 1),
                    s >= 0,
            ;
        }
        let m: u128 = 2 * (self.last_idx as u128) + 3;
        proof {
            assert(m * (0x1_0000_0000u128 - s) <= m * 0x1_0000_0000u128) by (nonlinear_arith)
                requires
                    1 <= s,
                    s <= 0x1_0000_0000u128,
                    0 <= m,
            ;
            assert((2 * (0xffff_ffff_ffff_ffffu128) + 3) * 0x1_0000_0000u128
                < 0xffff_ffff_ffff_ffff_ffff_ffff_ffff_ffffu128) by (nonlinear_arith);
            assert(m * 0x1_0000_0000u128 <= (2 * 0xffff_ffff_ffff_ffffu128 + 3) * 0x1_0000_0000u128)
                by (nonlinear_arith)
                requires
                    0 <= m <= 2 * 0xffff_ffff_ffff_ffffu128 + 3,
            ;
        }
        let num: u128 = m * (0x1_0000_0000u128 - s);
        let den: u128 = 2 * s;
        let d0: u128 = (num + den - 1) / den;
        let d: u128 = if d0 < 1 {
            1
        } else {
            d0
        };
        proof {
            assert(d == spec_diff(old(self).spec_last(), r));
        }
        if d > (u64::MAX - self.last_idx) as u128 {
            self.last_idx = u64::MAX;
        } else {
            self.last_idx = self.last_idx + d as u64;
        }
        index_to_return
    }
}

/// The mapping sequence is a function of the symbol's hash alone: two
/// mappings seeded independently from symbols with equal hashes yield
/// the same position at every step. Together with the contracts of
/// [`RandomMapping::new`] and [`RandomMapping::next_index`], which pin
/// every yielded position to [`spec_position`], this makes the whole
/// sequence deterministic in the seed.
pub proof fn lemma_mapping_deterministic<T: Symbol>(s1: T, s2: T, k: nat)
    requires
        s1.spec_hash() == s2.spec_hash(),
    ensures
        spec_position(s1.spec_hash(), k) == spec_position(s2.spec_hash(), k),
{
}

/// The mapping sequence strictly increases at every step whose position
/// has not yet saturated the 64-bit range.
pub proof fn lemma_mapping_strictly_increasing(h: u64, k: nat)
    requires
        spec_position(h, k) < u64::MAX,
    ensures
        spec_position(h, (k + 1) as nat) > spec_position(h, k),
{
    let st = spec_state(h, k);
    let p = spec_next_prng(st.0);
    lemma_diff_at_least_one(st.1, p);
}

/// The gap is always at least one.
proof fn lemma_diff_at_least_one(last: u64, r: u64)
    ensures
        spec_diff(last, r) >= 1,
{
}

/// Positions never decrease along a mapping sequence.
pub proof fn lemma_position_nondecreasing(h: u64, k1: nat, k2: nat)
    requires
        k1 <= k2,
    ensures
        spec_position(h, k1) <= spec_position(h, k2),
    decreases k2 - k1,
{
    if k1 < k2 {
        lemma_position_nondecreasing(h, k1, (k2 - 1) as nat);
        let st = spec_state(h, (k2 - 1) as nat);
        let p = spec_next_prng(st.0);
        lemma_diff_at_least_one(st.1, p);
    }
}

/// Later steps yield strictly larger positions, as long as the earlier
/// position has not saturated the 64-bit range.
pub proof fn lemma_position_strictly_increasing_below_max(h: u64, k1: nat, k2: nat)
    requires
        k1 < k2,
        spec_position(h, k1) < u64::MAX,
    ensures
        spec_position(h, k2) > spec_position(h, k1),
{
    lemma_mapping_strictly_increasing(h, k1);
    lemma_position_nondecreasing(h, (k1 + 1) as nat, k2);
}

} // verus!
