//! Products that need no rounding: halves and doubles.

use vstd::prelude::*;
use vstd::arithmetic::power2::{pow2, lemma_pow2_pos, lemma_pow2_adds, lemma_pow2_unfold};
use crate::float::pattern::{
    HIDDEN_BIT,
    INFINITY_PATTERN,
    pattern_exponent,
    pattern_significand,
    pattern_value,
    lemma_pattern_compose,
    lemma_pattern_decompose,
    lemma_pattern_value_start,
};
use crate::float::rounding::{
    floor_pattern,
    round_nearest_even,
    lemma_floor_exists,
    lemma_floor_is,
    lemma_round_exact,
};
use crate::float::constants::{constant, HALF_BITS, TWO_BITS, lemma_constant_magnitudes};
use crate::float::binary64::Binary64;

verus! {

/// The factors of a product can change places.
pub proof fn lemma_mul_commutes(a: Binary64, b: Binary64)
    ensures
        a.mul_spec(b) == b.mul_spec(a),
{
}

/// Doubling a normal pattern adds one to its exponent and doubles its value.
pub proof fn lemma_pattern_doubled(p: u64)
    requires
        HIDDEN_BIT <= p <= INFINITY_PATTERN - HIDDEN_BIT,
    ensures
        pattern_value((p + HIDDEN_BIT) as u64) == 2 * pattern_value(p),
{
    let k = pattern_exponent(p);
    let m = pattern_significand(p);
    lemma_pattern_decompose(p);
    lemma_pattern_compose(k + 1, m);
    lemma_pow2_unfold(k + 1);
    assert(m * (2 * pow2(k)) == 2 * (m * pow2(k))) by (nonlinear_arith);
}

/// Twice a fraction whose floor is normal rounds to the pattern one exponent up.
pub proof fn lemma_round_doubles(n: nat, d: nat)
    requires
        d > 0,
        HIDDEN_BIT <= floor_pattern(n, d) < INFINITY_PATTERN - HIDDEN_BIT,
    ensures
        round_nearest_even(2 * n, d) == round_nearest_even(n, d) + HIDDEN_BIT,
{
    let lo = floor_pattern(n, d);
    let hi = (lo + 1) as u64;
    lemma_floor_exists(n, d);
    lemma_pattern_doubled(lo);
    lemma_pattern_doubled(hi);
    let up = (lo + HIDDEN_BIT) as u64;
    assert((2 * pattern_value(lo)) * d == 2 * (pattern_value(lo) * d)) by (nonlinear_arith);
    assert((2 * pattern_value(hi)) * d == 2 * (pattern_value(hi) * d)) by (nonlinear_arith);
    lemma_floor_is(2 * n, d, up);
}

/// Half of a fraction whose floor is normal, and stays normal one exponent
/// down, rounds to the pattern one exponent down.
pub proof fn lemma_round_halves(n: nat, d: nat)
    requires
        d > 0,
        2 * HIDDEN_BIT <= floor_pattern(n, d) < INFINITY_PATTERN,
    ensures
        round_nearest_even(n, 2 * d) == round_nearest_even(n, d) - HIDDEN_BIT,
{
    let lo = floor_pattern(n, d);
    let hi = (lo + 1) as u64;
    let down = (lo - HIDDEN_BIT) as u64;
    lemma_floor_exists(n, d);
    lemma_pattern_doubled(down);
    lemma_pattern_doubled((hi - HIDDEN_BIT) as u64);
    assert(pattern_value(down) * (2 * d) == (2 * pattern_value(down)) * d) by (nonlinear_arith);
    assert(pattern_value((down + 1) as u64) * (2 * d) == (2 * pattern_value((down + 1) as u64))
        * d) by (nonlinear_arith);
    lemma_floor_is(n, 2 * d, down);
}

/// Halving a value of twice the least normal magnitude or more is exact: it
/// takes one from the exponent.
pub proof fn lemma_half_exact(x: Binary64)
    requires
        x.is_finite(),
        x.pattern() >= 2 * HIDDEN_BIT,
    ensures
        x.mul_spec(constant(HALF_BITS)) == Binary64::signed(
            x.is_negative(),
            (x.pattern() - HIDDEN_BIT) as u64,
        ),
{
    let p = x.pattern();
    let k = pattern_exponent(p);
    let m = pattern_significand(p);
    let lower = (p - HIDDEN_BIT) as u64;
    lemma_pattern_decompose(p);
    lemma_pattern_compose((k - 1) as nat, m);
    lemma_constant_magnitudes();
    lemma_pow2_adds(k, 1073);
    lemma_pow2_adds((k - 1) as nat, 1074);
    lemma_pow2_pos(1074);
    assert((m * pow2(k)) * pow2(1073) == (m * pow2((k - 1) as nat)) * pow2(1074))
        by (nonlinear_arith)
        requires
            pow2(k) * pow2(1073) == pow2((k - 1) as nat) * pow2(1074),
    ;
    lemma_round_exact(lower, pow2(1074));
}

/// The pattern of twice the value of `p`: one exponent up for a normal
/// pattern, twice the pattern below the normal range.
pub open spec fn doubled_pattern(p: u64) -> u64 {
    if p < HIDDEN_BIT {
        (2 * p) as u64
    } else {
        (p + HIDDEN_BIT) as u64
    }
}

/// Doubling a number that is no infinity and whose double is none is exact.
pub proof fn lemma_double_exact(x: Binary64)
    requires
        x.is_finite(),
        x.pattern() < INFINITY_PATTERN - HIDDEN_BIT,
    ensures
        x.mul_spec(constant(TWO_BITS)) == Binary64::signed(
            x.is_negative(),
            doubled_pattern(x.pattern()),
        ),
        !x.mul_spec(constant(TWO_BITS)).is_nan(),
        x.mul_spec(constant(TWO_BITS)).is_negative() == x.is_negative(),
        x.mul_spec(constant(TWO_BITS)).magnitude() == 2 * x.magnitude(),
        !x.is_zero() ==> x.mul_spec(constant(TWO_BITS)).pattern() > x.pattern(),
{
    let p = x.pattern();
    lemma_constant_magnitudes();
    lemma_pattern_value_start();
    lemma_pow2_unfold(1075);
    lemma_pow2_pos(1074);
    let up = doubled_pattern(p);
    if p < HIDDEN_BIT {
        lemma_pattern_compose(0, (2 * p) as nat);
        assert(pattern_value(p) == p) by {
            lemma_pattern_compose(0, p as nat);
        }
    } else {
        lemma_pattern_doubled(p);
    }
    assert(x.magnitude() * pow2(1075) == (2 * x.magnitude()) * pow2(1074)) by (nonlinear_arith)
        requires
            pow2(1075) == 2 * pow2(1074),
    ;
    lemma_round_exact(up, pow2(1074));
}

} // verus!
