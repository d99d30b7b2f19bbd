//! Multiplication and division.

use vstd::prelude::*;
use vstd::arithmetic::power2::{pow2, lemma_pow2_pos, lemma_pow2_adds, lemma_pow2_strictly_increases};
use crate::float::pattern::{HIDDEN_BIT, SIGNIFICAND_LIMIT, INFINITY_PATTERN, pattern_value};
use crate::float::rounding::{round_nearest_even, lemma_floor_is, lemma_round_congruent, lemma_round_exact};
use crate::float::pack::{
    lemma_pow2_128,
    power_of_two,
    bit_length,
    round_pack,
    round_dyadic,
    dyadic_numerator,
    dyadic_denominator,
};
use crate::float::binary64::Binary64;

verus! {

/// Scaling twice by powers of two scales once by their product.
pub proof fn lemma_scale_twice(x: nat, a: nat, b: nat)
    ensures
        (x * pow2(a)) * pow2(b) == x * pow2(a + b),
{
    lemma_pow2_adds(a, b);
    assert((x * pow2(a)) * pow2(b) == x * (pow2(a) * pow2(b))) by (nonlinear_arith);
}

/// The product of two scaled numbers is the scaled product.
pub proof fn lemma_scale_product(x: nat, a: nat, y: nat, b: nat)
    ensures
        (x * pow2(a)) * (y * pow2(b)) == (x * y) * pow2(a + b),
{
    lemma_pow2_adds(a, b);
    assert((x * pow2(a)) * (y * pow2(b)) == (x * y) * (pow2(a) * pow2(b))) by (nonlinear_arith);
}

/// Shifts a nonzero significand up until its leading bit is the 53rd.
pub(crate) fn normalize(m: u64) -> (r: (u64, u32))
    requires
        0 < m < SIGNIFICAND_LIMIT,
    ensures
        HIDDEN_BIT <= r.0 < SIGNIFICAND_LIMIT,
        r.1 <= 52,
        r.0 == m * pow2(r.1 as nat),
{
    let l: u32 = bit_length(m as u128);
    proof {
        lemma_pow2_128();
        if l > 53 {
            lemma_pow2_strictly_increases(53, (l - 1) as nat);
        }
    }
    let shift: u32 = 53 - l;
    let up: u128 = power_of_two(shift);
    proof {
        lemma_pow2_adds(l as nat, shift as nat);
        lemma_pow2_adds((l - 1) as nat, shift as nat);
        lemma_pow2_pos(shift as nat);
        assert(m * up < pow2(53)) by (nonlinear_arith)
            requires
                m < pow2(l as nat),
                up > 0,
                pow2(53) == pow2(l as nat) * up,
        ;
        assert(m * up >= pow2(52)) by (nonlinear_arith)
            requires
                m >= pow2((l - 1) as nat),
                up > 0,
                pow2(52) == pow2((l - 1) as nat) * up,
        ;
    }
    (((m as u128) * up) as u64, shift)
}

impl Binary64 {
    /// The product: the exact product of the two values, rounded to nearest,
    /// ties to even; not-a-number where either is, or where zero meets infinity.
    pub open spec fn mul_spec(self, rhs: Binary64) -> Binary64 {
        let negative = self.is_negative() != rhs.is_negative();
        if self.is_nan() || rhs.is_nan() {
            Binary64::nan()
        } else if self.is_infinite() || rhs.is_infinite() {
            if self.is_zero() || rhs.is_zero() {
                Binary64::nan()
            } else {
                Binary64::signed(negative, INFINITY_PATTERN)
            }
        } else {
            Binary64::signed(
                negative,
                round_nearest_even(self.magnitude() * rhs.magnitude(), pow2(1074)),
            )
        }
    }

    /// The quotient: the exact quotient of the two values, rounded to nearest,
    /// ties to even; not-a-number where either is, and for zero by zero and
    /// infinity by infinity. A nonzero value by zero gives infinity.
    pub open spec fn div_spec(self, rhs: Binary64) -> Binary64 {
        let negative = self.is_negative() != rhs.is_negative();
        if self.is_nan() || rhs.is_nan() {
            Binary64::nan()
        } else if self.is_infinite() {
            if rhs.is_infinite() {
                Binary64::nan()
            } else {
                Binary64::signed(negative, INFINITY_PATTERN)
            }
        } else if rhs.is_infinite() {
            Binary64::signed(negative, 0)
        } else if rhs.is_zero() {
            if self.is_zero() {
                Binary64::nan()
            } else {
                Binary64::signed(negative, INFINITY_PATTERN)
            }
        } else {
            Binary64::signed(
                negative,
                round_nearest_even(self.magnitude() * pow2(1074), rhs.magnitude()),
            )
        }
    }

    /// `self * rhs`.
    pub fn mul(self, rhs: Binary64) -> (r: Binary64)
        ensures
            r == self.mul_spec(rhs),
    {
        let negative: bool = self.sign_bit() != rhs.sign_bit();
        if self.not_a_number() || rhs.not_a_number() {
            return Binary64::quiet_nan();
        }
        let pa: u64 = self.magnitude_pattern();
        let pb: u64 = rhs.magnitude_pattern();
        if pa == INFINITY_PATTERN || pb == INFINITY_PATTERN {
            if pa == 0 || pb == 0 {
                return Binary64::quiet_nan();
            }
            return Binary64::with_sign(negative, INFINITY_PATTERN);
        }
        let (ma, ka) = self.decode();
        let (mb, kb) = rhs.decode();
        proof {
            assert(ma * mb < SIGNIFICAND_LIMIT * SIGNIFICAND_LIMIT) by (nonlinear_arith)
                requires
                    ma < SIGNIFICAND_LIMIT,
                    mb < SIGNIFICAND_LIMIT,
            ;
        }
        let p: u128 = (ma as u128) * (mb as u128);
        let t: i64 = (ka as i64) + (kb as i64) - 1074;
        let r: u64 = round_dyadic(p, t);
        proof {
            let n = dyadic_numerator(p as nat, t as int);
            let d = dyadic_denominator(t as int);
            let exact = self.magnitude() * rhs.magnitude();
            lemma_scale_product(ma as nat, ka as nat, mb as nat, kb as nat);
            lemma_pow2_pos(1074);
            if t >= 0 {
                lemma_scale_twice(p as nat, t as nat, 1074);
            } else {
                lemma_pow2_pos((-t) as nat);
                lemma_scale_twice(p as nat, (ka + kb) as nat, (-t) as nat);
            }
            lemma_round_congruent(n, d, exact, pow2(1074));
        }
        Binary64::with_sign(negative, r)
    }

    /// `self / rhs`.
    pub fn div(self, rhs: Binary64) -> (r: Binary64)
        ensures
            r == self.div_spec(rhs),
    {
        let negative: bool = self.sign_bit() != rhs.sign_bit();
        if self.not_a_number() || rhs.not_a_number() {
            return Binary64::quiet_nan();
        }
        let pa: u64 = self.magnitude_pattern();
        let pb: u64 = rhs.magnitude_pattern();
        if pa == INFINITY_PATTERN {
            if pb == INFINITY_PATTERN {
                return Binary64::quiet_nan();
            }
            return Binary64::with_sign(negative, INFINITY_PATTERN);
        }
        if pb == INFINITY_PATTERN {
            return Binary64::with_sign(negative, 0);
        }
        if pb == 0 {
            if pa == 0 {
                return Binary64::quiet_nan();
            }
            return Binary64::with_sign(negative, INFINITY_PATTERN);
        }
        let (ma, ka) = self.decode();
        let (mb, kb) = rhs.decode();
        let ghost exact = (self.magnitude() * pow2(1074)) as nat;
        let ghost divisor = rhs.magnitude();
        proof {
            lemma_pow2_128();
            lemma_pow2_pos(kb as nat);
            crate::float::pattern::lemma_pattern_value_start();
            assert(divisor > 0) by (nonlinear_arith)
                requires
                    divisor == mb * pow2(kb as nat),
                    mb > 0,
                    pow2(kb as nat) > 0,
            ;
        }
        if pa == 0 {
            proof {
                assert(exact == 0) by (nonlinear_arith)
                    requires
                        exact == 0 * pow2(1074),
                ;
                lemma_round_exact(0, divisor);
            }
            return Binary64::with_sign(negative, 0);
        }
        let (na, sa) = normalize(ma);
        let (nb, sb) = normalize(mb);
        let j: u32 = if na >= nb {
            52
        } else {
            53
        };
        let up: u128 = power_of_two(j);
        proof {
            assert(na * up < SIGNIFICAND_LIMIT * up) by (nonlinear_arith)
                requires
                    na < SIGNIFICAND_LIMIT,
                    up > 0,
            ;
        }
        let num: u128 = (na as u128) * up;
        let e: i64 = (sb as i64) - (sa as i64) - (j as i64) + (ka as i64) - (kb as i64) + 1074;
        proof {
            // The quotient of the normalized significands has 53 digits.
            assert(num / (nb as u128) < SIGNIFICAND_LIMIT) by (nonlinear_arith)
                requires
                    num == na * up,
                    (up == HIDDEN_BIT && na < 2 * nb) || (up == SIGNIFICAND_LIMIT && na < nb),
                    nb > 0,
            ;
            assert(num / (nb as u128) >= HIDDEN_BIT) by (nonlinear_arith)
                requires
                    num == na * up,
                    (up == HIDDEN_BIT && na >= nb) || (up == SIGNIFICAND_LIMIT && 2 * na >= nb),
                    nb > 0,
            ;
            // Both fractions are the product of the significands at one exponent.
            lemma_scale_twice(ma as nat, sa as nat, j as nat);
            lemma_scale_twice(ma as nat, ka as nat, 1074);
        }
        if e >= 0 {
            let r: u64 = round_pack(num, nb as u128, e as u64);
            proof {
                lemma_scale_twice(ma as nat, (sa + j) as nat, e as nat);
                let n1 = (num * pow2(e as nat)) as nat;
                lemma_scale_product(ma as nat, (sa + j + e) as nat, mb as nat, kb as nat);
                lemma_scale_product(ma as nat, (ka + 1074) as nat, mb as nat, sb as nat);
                lemma_round_congruent(n1, nb as nat, exact, divisor);
            }
            Binary64::with_sign(negative, r)
        } else {
            let sh: i64 = -e;
            let ghost d1 = (nb * pow2(sh as nat)) as nat;
            proof {
                lemma_pow2_pos(sh as nat);
                assert(d1 > 0) by (nonlinear_arith)
                    requires
                        d1 == nb * pow2(sh as nat),
                        nb > 0,
                        pow2(sh as nat) > 0,
                ;
                lemma_scale_twice(mb as nat, sb as nat, sh as nat);
                lemma_scale_product(ma as nat, (sa + j) as nat, mb as nat, kb as nat);
                lemma_scale_product(ma as nat, (ka + 1074) as nat, mb as nat, (sb + sh) as nat);
                lemma_round_congruent(num as nat, d1, exact, divisor);
            }
            if sh > 60 {
                proof {
                    lemma_pow2_strictly_increases(60, sh as nat);
                    lemma_pow2_adds(52, 60);
                    lemma_pow2_adds(53, 53);
                    assert(d1 >= HIDDEN_BIT * pow2(60)) by (nonlinear_arith)
                        requires
                            d1 == nb * pow2(sh as nat),
                            nb >= HIDDEN_BIT,
                            pow2(sh as nat) > pow2(60),
                    ;
                    assert(2 * num < HIDDEN_BIT * pow2(60)) by {
                        vstd::arithmetic::power2::lemma2_to64_rest();
                    }
                    crate::float::pattern::lemma_pattern_value_start();
                    assert(pattern_value(1) * d1 == d1);
                    lemma_floor_is(num as nat, d1, 0);
                }
                Binary64::with_sign(negative, 0)
            } else {
                let down: u128 = power_of_two(sh as u32);
                proof {
                    lemma_pow2_strictly_increases(sh as nat, 61);
                    lemma_pow2_adds(53, 61);
                    lemma_pow2_adds(32, 29);
                    vstd::arithmetic::power2::lemma2_to64();
                    assert(nb * down < SIGNIFICAND_LIMIT * pow2(61)) by (nonlinear_arith)
                        requires
                            nb < SIGNIFICAND_LIMIT,
                            0 < down < pow2(61),
                    ;
                }
                let den: u128 = (nb as u128) * down;
                proof {
                    assert(num / den < SIGNIFICAND_LIMIT) by (nonlinear_arith)
                        requires
                            num / (nb as u128) < SIGNIFICAND_LIMIT,
                            den == nb * down,
                            down >= 1,
                            nb > 0,
                    ;
                }
                let r: u64 = round_pack(num, den, 0);
                Binary64::with_sign(negative, r)
            }
        }
    }
}

} // verus!
