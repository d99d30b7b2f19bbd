//! Magnitude patterns: the low 63 bits of a binary64 value, read as a number.
//!
//! Every finite binary64 magnitude is a whole multiple of 2^-1074. The value of
//! a pattern is counted in that unit, so it is a natural number, and it grows
//! strictly with the pattern itself.

use vstd::prelude::*;
use vstd::arithmetic::power2::{pow2, lemma_pow2_pos, lemma_pow2_unfold, lemma2_to64};

verus! {

/// The sign bit of a binary64 value.
pub const SIGN_MASK: u64 = 0x8000_0000_0000_0000;

/// Two to the 52nd: the weight of the leading significand bit of a normal value.
pub const HIDDEN_BIT: u64 = 0x0010_0000_0000_0000;

/// Two to the 53rd: one more than the largest significand.
pub const SIGNIFICAND_LIMIT: u64 = 0x0020_0000_0000_0000;

/// The pattern of infinity: all exponent bits set, no fraction bit set.
pub const INFINITY_PATTERN: u64 = 0x7FF0_0000_0000_0000;

/// The pattern of the quiet not-a-number that every operation of this crate produces.
pub const NAN_PATTERN: u64 = 0x7FF8_0000_0000_0000;

/// The exponent of a pattern's last place, counted from -1074.
pub open spec fn pattern_exponent(p: u64) -> nat {
    if p / HIDDEN_BIT == 0 {
        0
    } else {
        (p / HIDDEN_BIT - 1) as nat
    }
}

/// The significand of a pattern, with its leading bit where the pattern is normal.
pub open spec fn pattern_significand(p: u64) -> nat {
    if p / HIDDEN_BIT == 0 {
        p as nat
    } else {
        (HIDDEN_BIT + p % HIDDEN_BIT) as nat
    }
}

/// The magnitude that a pattern stands for, in units of 2^-1074. At
/// `INFINITY_PATTERN` this is 2^2098, one step past the largest finite value.
pub open spec fn pattern_value(p: u64) -> nat {
    pattern_significand(p) * pow2(pattern_exponent(p))
}

/// A significand `m` at exponent `k` is the pattern `k * 2^52 + m`, also where
/// `m` has just reached 2^53.
pub proof fn lemma_pattern_compose(k: nat, m: nat)
    requires
        m <= SIGNIFICAND_LIMIT,
        k == 0 || m >= HIDDEN_BIT,
        k * HIDDEN_BIT + m <= INFINITY_PATTERN,
    ensures
        pattern_value((k * HIDDEN_BIT + m) as u64) == m * pow2(k),
{
    lemma2_to64();
    if m >= SIGNIFICAND_LIMIT {
        lemma_pow2_unfold(k + 1);
        assert(HIDDEN_BIT * (2 * pow2(k)) == SIGNIFICAND_LIMIT * pow2(k)) by (nonlinear_arith);
    }
}

/// The first two patterns stand for zero and for one unit.
pub proof fn lemma_pattern_value_start()
    ensures
        pattern_value(0) == 0,
        pattern_value(1) == 1,
{
    lemma2_to64();
}

/// A pattern is its own significand at its own exponent.
pub proof fn lemma_pattern_decompose(p: u64)
    requires
        p <= INFINITY_PATTERN,
    ensures
        p == pattern_exponent(p) * HIDDEN_BIT + pattern_significand(p),
        pattern_significand(p) < SIGNIFICAND_LIMIT,
        pattern_exponent(p) == 0 || pattern_significand(p) >= HIDDEN_BIT,
        pattern_exponent(p) <= 2046,
{
}

/// The next pattern is one unit in the last place further.
pub proof fn lemma_pattern_step(p: u64)
    requires
        p < INFINITY_PATTERN,
    ensures
        pattern_value((p + 1) as u64) == pattern_value(p) + pow2(pattern_exponent(p)),
{
    let k = pattern_exponent(p);
    let m = pattern_significand(p);
    lemma_pattern_decompose(p);
    lemma_pattern_compose(k, m + 1);
    assert((m + 1) * pow2(k) == m * pow2(k) + pow2(k)) by (nonlinear_arith);
}

/// Patterns and the magnitudes they stand for are ordered alike.
pub proof fn lemma_pattern_value_increasing(p: u64, q: u64)
    requires
        p < q <= INFINITY_PATTERN,
    ensures
        pattern_value(p) < pattern_value(q),
    decreases q - p,
{
    let before = (q - 1) as u64;
    lemma_pattern_step(before);
    lemma_pow2_pos(pattern_exponent(before));
    if p < before {
        lemma_pattern_value_increasing(p, before);
    }
}

} // verus!
