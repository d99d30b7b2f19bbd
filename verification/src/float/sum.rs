//! Addition and subtraction.

use vstd::prelude::*;
use vstd::arithmetic::power2::{
    pow2,
    lemma_pow2_pos,
    lemma_pow2_adds,
    lemma_pow2_unfold,
    lemma_pow2_strictly_increases,
};
use crate::float::pattern::{
    SIGNIFICAND_LIMIT,
    INFINITY_PATTERN,
    pattern_exponent,
    pattern_value,
    lemma_pattern_step,
    lemma_pattern_value_increasing,
};
use crate::float::rounding::{round_nearest_even, lemma_floor_is, lemma_round_exact};
use crate::float::pack::{lemma_pow2_128, power_of_two, round_dyadic};
use crate::float::product::lemma_scale_twice;
use crate::float::binary64::Binary64;

verus! {

/// A value whose exponent lies at least 64 below `k` is less than a quarter
/// of a unit in the last place at `k - 1`.
proof fn lemma_far_below(m: nat, kb: nat, k: nat)
    requires
        m < SIGNIFICAND_LIMIT,
        kb + 64 <= k,
    ensures
        4 * (m * pow2(kb)) < pow2((k - 1) as nat),
{
    lemma_pow2_128();
    lemma_pow2_adds(kb, 53);
    lemma_pow2_adds(kb + 53, 2);
    vstd::arithmetic::power2::lemma2_to64();
    lemma_pow2_strictly_increases(kb + 55, (k - 1) as nat);
    lemma_pow2_pos(kb);
    assert(m * pow2(kb) < pow2(kb) * SIGNIFICAND_LIMIT) by (nonlinear_arith)
        requires
            m < SIGNIFICAND_LIMIT,
            pow2(kb) > 0,
    ;
}

/// The pattern that the sum of two finite magnitudes rounds to.
pub(crate) fn sum_patterns(pa: u64, pb: u64) -> (r: u64)
    requires
        pb <= pa < INFINITY_PATTERN,
    ensures
        r == round_nearest_even(pattern_value(pa) + pattern_value(pb), 1),
        r <= INFINITY_PATTERN,
{
    let (ma, ka) = Binary64::with_sign(false, pa).decode();
    let (mb, kb) = Binary64::with_sign(false, pb).decode();
    let d: u64 = ka - kb;
    let ghost n = pattern_value(pa) + pattern_value(pb);
    if d >= 64 {
        proof {
            lemma_far_below(mb as nat, kb as nat, ka as nat);
            lemma_pow2_unfold(ka as nat);
            lemma_pattern_step(pa);
            lemma_floor_is(n, 1, pa);
        }
        pa
    } else {
        let up: u128 = power_of_two(d as u32);
        proof {
            lemma_pow2_128();
            if d < 63 {
                lemma_pow2_strictly_increases(d as nat, 63);
            }
            lemma_pow2_adds(53, 63);
            lemma_pow2_adds(32, 31);
            vstd::arithmetic::power2::lemma2_to64();
            assert(ma * up <= SIGNIFICAND_LIMIT * pow2(63)) by (nonlinear_arith)
                requires
                    ma < SIGNIFICAND_LIMIT,
                    0 <= up <= pow2(63),
            ;
        }
        let p: u128 = (ma as u128) * up + (mb as u128);
        let r: u64 = round_dyadic(p, kb as i64);
        proof {
            lemma_scale_twice(ma as nat, d as nat, kb as nat);
            assert(p * pow2(kb as nat) == (ma * up) * pow2(kb as nat) + mb * pow2(kb as nat))
                by (nonlinear_arith)
                requires
                    p == ma * up + mb,
            ;
        }
        r
    }
}

/// The pattern that the difference of two finite magnitudes rounds to.
pub(crate) fn difference_patterns(pa: u64, pb: u64) -> (r: u64)
    requires
        pb < pa < INFINITY_PATTERN,
    ensures
        r == round_nearest_even((pattern_value(pa) - pattern_value(pb)) as nat, 1),
        r <= INFINITY_PATTERN,
{
    let (ma, ka) = Binary64::with_sign(false, pa).decode();
    let (mb, kb) = Binary64::with_sign(false, pb).decode();
    let d: u64 = ka - kb;
    proof {
        lemma_pattern_value_increasing(pb, pa);
    }
    let ghost n = (pattern_value(pa) - pattern_value(pb)) as nat;
    if d >= 64 {
        proof {
            if pb == 0 {
                crate::float::pattern::lemma_pattern_value_start();
                lemma_round_exact(pa, 1);
            } else {
                let q = (pa - 1) as u64;
                let kq = pattern_exponent(q);
                lemma_far_below(mb as nat, kb as nat, (kq + 1) as nat);
                lemma_pattern_step(q);
                lemma_pattern_value_increasing(0, pb);
                lemma_floor_is(n, 1, q);
            }
        }
        pa
    } else {
        let up: u128 = power_of_two(d as u32);
        proof {
            lemma_pow2_128();
            if d < 63 {
                lemma_pow2_strictly_increases(d as nat, 63);
            }
            lemma_pow2_adds(53, 63);
            lemma_pow2_adds(32, 31);
            vstd::arithmetic::power2::lemma2_to64();
            assert(ma * up <= SIGNIFICAND_LIMIT * pow2(63)) by (nonlinear_arith)
                requires
                    ma < SIGNIFICAND_LIMIT,
                    0 <= up <= pow2(63),
            ;
            lemma_scale_twice(ma as nat, d as nat, kb as nat);
            lemma_pow2_pos(kb as nat);
            assert(ma * up > mb) by (nonlinear_arith)
                requires
                    (ma * up) * pow2(kb as nat) > mb * pow2(kb as nat),
                    pow2(kb as nat) > 0,
            ;
        }
        let p: u128 = (ma as u128) * up - (mb as u128);
        let r: u64 = round_dyadic(p, kb as i64);
        proof {
            assert(p * pow2(kb as nat) == (ma * up) * pow2(kb as nat) - mb * pow2(kb as nat))
                by (nonlinear_arith)
                requires
                    p == ma * up - mb,
            ;
        }
        r
    }
}

impl Binary64 {
    /// The sum: the exact sum of the two values, rounded to nearest, ties to
    /// even; not-a-number where either is, or where the two are infinities of
    /// opposite sign. Values that cancel give positive zero.
    pub open spec fn add_spec(self, rhs: Binary64) -> Binary64 {
        if self.is_nan() || rhs.is_nan() {
            Binary64::nan()
        } else if self.is_infinite() {
            if rhs.is_infinite() && self.is_negative() != rhs.is_negative() {
                Binary64::nan()
            } else {
                Binary64::signed(self.is_negative(), INFINITY_PATTERN)
            }
        } else if rhs.is_infinite() {
            Binary64::signed(rhs.is_negative(), INFINITY_PATTERN)
        } else if self.is_negative() == rhs.is_negative() {
            Binary64::signed(
                self.is_negative(),
                round_nearest_even(self.magnitude() + rhs.magnitude(), 1),
            )
        } else if self.magnitude() > rhs.magnitude() {
            Binary64::signed(
                self.is_negative(),
                round_nearest_even((self.magnitude() - rhs.magnitude()) as nat, 1),
            )
        } else if self.magnitude() < rhs.magnitude() {
            Binary64::signed(
                rhs.is_negative(),
                round_nearest_even((rhs.magnitude() - self.magnitude()) as nat, 1),
            )
        } else {
            Binary64::signed(false, 0)
        }
    }

    /// The difference: the sum with the second value negated.
    pub open spec fn sub_spec(self, rhs: Binary64) -> Binary64 {
        self.add_spec(rhs.neg_spec())
    }

    /// `self + rhs`.
    pub fn add(self, rhs: Binary64) -> (r: Binary64)
        ensures
            r == self.add_spec(rhs),
    {
        if self.not_a_number() || rhs.not_a_number() {
            return Binary64::quiet_nan();
        }
        let pa: u64 = self.magnitude_pattern();
        let pb: u64 = rhs.magnitude_pattern();
        let sa: bool = self.sign_bit();
        let sb: bool = rhs.sign_bit();
        if pa == INFINITY_PATTERN {
            if pb == INFINITY_PATTERN && sa != sb {
                return Binary64::quiet_nan();
            }
            return Binary64::with_sign(sa, INFINITY_PATTERN);
        }
        if pb == INFINITY_PATTERN {
            return Binary64::with_sign(sb, INFINITY_PATTERN);
        }
        proof {
            if pa < pb {
                lemma_pattern_value_increasing(pa, pb);
            }
            if pb < pa {
                lemma_pattern_value_increasing(pb, pa);
            }
        }
        if sa == sb {
            let r: u64 = if pa >= pb {
                sum_patterns(pa, pb)
            } else {
                sum_patterns(pb, pa)
            };
            Binary64::with_sign(sa, r)
        } else if pa > pb {
            Binary64::with_sign(sa, difference_patterns(pa, pb))
        } else if pa < pb {
            Binary64::with_sign(sb, difference_patterns(pb, pa))
        } else {
            Binary64::with_sign(false, 0)
        }
    }

    /// `self - rhs`.
    pub fn sub(self, rhs: Binary64) -> (r: Binary64)
        ensures
            r == self.sub_spec(rhs),
    {
        self.add(rhs.neg())
    }
}

} // verus!
