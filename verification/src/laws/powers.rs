//! Powers of two are exact.
//!
//! The exponential scales its series by a power of two. As long as the power
//! is a normal number, squaring and multiplying powers of two rounds nothing,
//! so the scale is the power itself.

use vstd::prelude::*;
use vstd::arithmetic::power2::{pow2, lemma_pow2_pos, lemma_pow2_adds};
use crate::float::rounding::lemma_round_exact;
use crate::float::bounds::{power_pattern, lemma_power_pattern};
use crate::float::binary64::Binary64;
use crate::float::constants::{constant, ONE_BITS, TWO_BITS};
use crate::function_approximations::{power_by_squaring, static_powi_spec};

verus! {

/// Two to the `e` units, which is 2^(e - 1074): the value with a single
/// significand bit. At 2098 it is positive infinity.
pub open spec fn power(e: nat) -> Binary64 {
    Binary64::signed(false, power_pattern(e))
}

/// The product of two powers of two is the power of the sum of their
/// exponents; where that is 2^1024, it is infinity.
pub proof fn lemma_mul_powers(i: nat, j: nat)
    requires
        52 <= i <= 2097,
        52 <= j <= 2097,
        52 <= i + j - 1074 <= 2098,
    ensures
        power(i).mul_spec(power(j)) == power((i + j - 1074) as nat),
{
    let e = (i + j - 1074) as nat;
    lemma_power_pattern(i);
    lemma_power_pattern(j);
    lemma_power_pattern(e);
    lemma_pow2_adds(i, j);
    lemma_pow2_adds(e, 1074);
    lemma_pow2_pos(1074);
    lemma_round_exact(power_pattern(e), pow2(1074));
}

/// One over a power of two is the power of the opposite exponent.
pub proof fn lemma_reciprocal_power(i: nat)
    requires
        1074 <= i <= 2096,
    ensures
        power(1074).div_spec(power(i)) == power((2148 - i) as nat),
{
    let e = (2148 - i) as nat;
    lemma_power_pattern(1074);
    lemma_power_pattern(i);
    lemma_power_pattern(e);
    lemma_pow2_adds(1074, 1074);
    lemma_pow2_adds(e, i);
    lemma_pow2_pos(i);
    lemma_round_exact(power_pattern(e), pow2(i));
}

/// Exponentiation by squaring of a power of two, times a power of two, is
/// the power of two that the exponents give, as long as that is no infinity.
pub proof fn lemma_power_of_power(b: nat, e: nat, s: nat)
    requires
        1074 < b <= 2097,
        1074 <= s,
        s + (b - 1074) * e <= 2097,
    ensures
        power_by_squaring(power(b), e, power(s)) == power((s + (b - 1074) * e) as nat),
    decreases e,
{
    let step = (b - 1074) as nat;
    if e == 0 {
        assert(step * e == 0) by (nonlinear_arith)
            requires
                e == 0,
        ;
    } else {
        let half = e / 2;
        let odd = e % 2;
        let squared = power(b).mul_spec(power(b));
        let next = if odd == 1 {
            (s + step) as nat
        } else {
            s
        };
        let factor = if odd == 1 {
            power(s).mul_spec(power(b))
        } else {
            power(s)
        };
        assert(next + (2 * step) * half == s + step * e && (2 * step) * half >= 0)
            by (nonlinear_arith)
            requires
                e == 2 * half + odd,
                next == s + step * odd,
                half >= 0,
                step >= 0,
        ;
        if odd == 1 {
            lemma_mul_powers(s, b);
        }
        assert(factor == power(next));
        if half > 0 {
            assert((2 * step) * half >= 2 * step) by (nonlinear_arith)
                requires
                    half >= 1,
                    step >= 0,
            ;
            lemma_mul_powers(b, b);
            lemma_power_of_power((b + step) as nat, half, next);
        } else {
            assert(power_by_squaring(squared, half, factor) == factor);
        }
    }
}

/// Two to an integer power from -1022 to 1023 is exactly that power of two.
pub proof fn lemma_powi_of_two(n: int)
    requires
        -1022 <= n <= 1023,
    ensures
        static_powi_spec(constant(TWO_BITS), n) == power((n + 1074) as nat),
{
    assert(constant(ONE_BITS) == power(1074));
    assert(constant(TWO_BITS) == power(1075));
    if n > 0 {
        assert((1075 - 1074) * n == n);
        lemma_power_of_power(1075, n as nat, 1074);
    } else if n < 0 {
        assert((1075 - 1074) * (-n) == -n);
        lemma_power_of_power(1075, (-n) as nat, 1074);
        lemma_reciprocal_power((1074 - n) as nat);
    }
}

} // verus!
