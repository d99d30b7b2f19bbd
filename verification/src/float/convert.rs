//! Conversions between binary64 and the signed integers.

use vstd::prelude::*;
use vstd::arithmetic::power2::{pow2, lemma_pow2_pos, lemma_pow2_adds, lemma_pow2_strictly_increases};
use vstd::arithmetic::div_mod::{lemma_div_denominator, lemma_div_by_multiple};
use crate::float::pattern::{HIDDEN_BIT, SIGNIFICAND_LIMIT};
use crate::float::rounding::round_nearest_even;
use crate::float::pack::{lemma_pow2_128, power_of_two, round_dyadic};
use crate::float::product::lemma_scale_twice;
use crate::float::binary64::Binary64;

verus! {

/// `v` held to the range from `lo` to `hi`.
pub open spec fn clamp(v: int, lo: int, hi: int) -> int {
    if v < lo {
        lo
    } else if v > hi {
        hi
    } else {
        v
    }
}

impl Binary64 {
    /// The integer `v` rounded to binary64; exact up to 2^53 in magnitude.
    pub open spec fn from_int_spec(v: int) -> Binary64 {
        Binary64::signed(
            v < 0,
            round_nearest_even(
                (if v < 0 {
                    -v
                } else {
                    v
                }) as nat * pow2(1074),
                1,
            ),
        )
    }

    /// The value with its fraction dropped; zero for not-a-number.
    pub open spec fn truncation(self) -> int {
        if self.is_nan() {
            0
        } else if self.is_negative() {
            -((self.magnitude() / pow2(1074)) as int)
        } else {
            (self.magnitude() / pow2(1074)) as int
        }
    }

    /// The nearest binary64 value to a 64-bit integer.
    pub fn from_i64(v: i64) -> (r: Binary64)
        ensures
            r == Binary64::from_int_spec(v as int),
    {
        let negative: bool = v < 0;
        let mag: u128 = if negative {
            (-(v as i128)) as u128
        } else {
            v as u128
        };
        let r: u64 = round_dyadic(mag, 1074);
        Binary64::with_sign(negative, r)
    }

    /// The binary64 value of a 32-bit integer.
    pub fn from_i32(v: i32) -> (r: Binary64)
        ensures
            r == Binary64::from_int_spec(v as int),
    {
        Binary64::from_i64(v as i64)
    }

    /// The value cut to an integer toward zero and held to the 64-bit range;
    /// zero for not-a-number.
    pub fn to_i64(self) -> (r: i64)
        ensures
            r == clamp(self.truncation(), i64::MIN as int, i64::MAX as int),
    {
        if self.not_a_number() {
            return 0;
        }
        let negative: bool = self.sign_bit();
        let (m, k) = self.decode();
        let ghost unit = pow2(1074);
        proof {
            lemma_pow2_128();
            lemma_pow2_pos(1074);
            lemma_pow2_pos(k as nat);
        }
        if k >= 1085 {
            proof {
                let up = pow2((k - 1074) as nat);
                lemma_scale_twice(m as nat, (k - 1074) as nat, 1074);
                lemma_div_by_multiple((m * up) as int, unit as int);
                if k > 1085 {
                    lemma_pow2_strictly_increases(11, (k - 1074) as nat);
                }
                vstd::arithmetic::power2::lemma2_to64();
                assert(m * up >= HIDDEN_BIT * pow2(11)) by (nonlinear_arith)
                    requires
                        m >= HIDDEN_BIT,
                        up >= pow2(11),
                ;
            }
            if negative {
                i64::MIN
            } else {
                i64::MAX
            }
        } else if k >= 1074 {
            let up: u128 = power_of_two((k - 1074) as u32);
            proof {
                lemma_scale_twice(m as nat, (k - 1074) as nat, 1074);
                lemma_div_by_multiple((m * up) as int, unit as int);
                if k < 1084 {
                    lemma_pow2_strictly_increases((k - 1074) as nat, 10);
                }
                vstd::arithmetic::power2::lemma2_to64();
                assert(m * up < SIGNIFICAND_LIMIT * pow2(10)) by (nonlinear_arith)
                    requires
                        m < SIGNIFICAND_LIMIT,
                        0 < up <= pow2(10),
                ;
            }
            let q: i64 = ((m as u128) * up) as i64;
            if negative {
                -q
            } else {
                q
            }
        } else {
            let sh: u64 = 1074 - k;
            proof {
                let w = pow2(k as nat);
                let s = pow2(sh as nat);
                lemma_pow2_pos(sh as nat);
                lemma_pow2_adds(k as nat, sh as nat);
                lemma_div_by_multiple(m as int, w as int);
                lemma_div_denominator((m * w) as int, w as int, s as int);
            }
            if sh >= 64 {
                proof {
                    lemma_pow2_strictly_increases(53, sh as nat);
                    let s = pow2(sh as nat);
                    assert((m as nat) / s == 0) by (nonlinear_arith)
                        requires
                            0 <= m < s,
                    ;
                }
                0
            } else {
                let down: u128 = power_of_two(sh as u32);
                let q: i64 = ((m as u128) / down) as i64;
                if negative {
                    -q
                } else {
                    q
                }
            }
        }
    }

    /// The value cut to an integer toward zero and held to the 32-bit range;
    /// zero for not-a-number.
    pub fn to_i32(self) -> (r: i32)
        ensures
            r == clamp(self.truncation(), i32::MIN as int, i32::MAX as int),
    {
        let wide: i64 = self.to_i64();
        if wide < -2147483648 {
            -2147483648
        } else if wide > 2147483647 {
            2147483647
        } else {
            wide as i32
        }
    }
}

} // verus!
