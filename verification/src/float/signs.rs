//! Which results are numbers, and which sign they have.

use vstd::prelude::*;
use vstd::arithmetic::power2::{pow2, lemma_pow2_pos};
use crate::float::pattern::{
    INFINITY_PATTERN,
    lemma_pattern_value_increasing,
    lemma_pattern_value_start,
};
use crate::float::rounding::{round_nearest_even, lemma_round_lower};
use crate::float::binary64::Binary64;

verus! {

/// A rounding is a pattern up to that of infinity.
pub proof fn lemma_round_in_range(n: nat, d: nat)
    requires
        d > 0,
    ensures
        round_nearest_even(n, d) <= INFINITY_PATTERN,
{
    crate::float::pattern::lemma_pattern_value_start();
    lemma_round_lower(n, d, 0);
}

/// A product that is a number has the sign that its factors give it.
pub proof fn lemma_mul_sign(a: Binary64, b: Binary64)
    ensures
        a.mul_spec(b).is_nan() || (a.mul_spec(b).is_negative() == (a.is_negative()
            != b.is_negative())),
        (a.is_finite() && b.is_finite()) ==> !a.mul_spec(b).is_nan(),
{
    lemma_pow2_pos(1074);
    lemma_round_in_range(a.magnitude() * b.magnitude(), pow2(1074));
}

/// A sum is a number unless an operand is not, or the operands are
/// infinities of opposite sign.
pub proof fn lemma_add_number(a: Binary64, b: Binary64)
    requires
        !a.is_nan(),
        !b.is_nan(),
        !(a.is_infinite() && b.is_infinite() && a.is_negative() != b.is_negative()),
    ensures
        !a.add_spec(b).is_nan(),
{
    lemma_round_in_range(a.magnitude() + b.magnitude(), 1);
    lemma_round_in_range((a.magnitude() - b.magnitude()) as nat, 1);
    lemma_round_in_range((b.magnitude() - a.magnitude()) as nat, 1);
}

/// A product is a number unless a factor is not, or zero meets infinity.
pub proof fn lemma_mul_number(a: Binary64, b: Binary64)
    requires
        !a.is_nan(),
        !b.is_nan(),
        !(a.is_infinite() && b.is_zero()),
        !(a.is_zero() && b.is_infinite()),
    ensures
        !a.mul_spec(b).is_nan(),
{
    lemma_pow2_pos(1074);
    lemma_round_in_range(a.magnitude() * b.magnitude(), pow2(1074));
}

impl Binary64 {
    /// The value is a number with its sign bit clear: zero, a positive number
    /// or positive infinity.
    pub open spec fn is_nonnegative(self) -> bool {
        !self.is_nan() && !self.is_negative()
    }

    /// A nonzero number that is not an infinity has a positive magnitude.
    pub proof fn lemma_magnitude_positive(self)
        requires
            !self.is_nan(),
            !self.is_zero(),
        ensures
            self.magnitude() > 0,
    {
        lemma_pattern_value_start();
        lemma_pattern_value_increasing(0, self.pattern());
    }

    /// The quotient of two nonnegative values is nonnegative, unless both are
    /// zero or both are infinite.
    pub proof fn lemma_div_nonnegative(self, rhs: Binary64)
        requires
            self.is_nonnegative(),
            rhs.is_nonnegative(),
            !(self.is_zero() && rhs.is_zero()),
            !(self.is_infinite() && rhs.is_infinite()),
        ensures
            self.div_spec(rhs).is_nonnegative(),
    {
        if self.is_finite() && rhs.is_finite() && !rhs.is_zero() {
            rhs.lemma_magnitude_positive();
            lemma_round_in_range(self.magnitude() * pow2(1074), rhs.magnitude());
        }
    }

    /// The sum of two nonnegative values is nonnegative.
    pub proof fn lemma_add_nonnegative(self, rhs: Binary64)
        requires
            self.is_nonnegative(),
            rhs.is_nonnegative(),
        ensures
            self.add_spec(rhs).is_nonnegative(),
    {
        lemma_round_in_range(self.magnitude() + rhs.magnitude(), 1);
    }

    /// The product of two nonnegative values is nonnegative, unless one is
    /// zero and the other infinite.
    pub proof fn lemma_mul_nonnegative(self, rhs: Binary64)
        requires
            self.is_nonnegative(),
            rhs.is_nonnegative(),
            !(self.is_zero() && rhs.is_infinite()),
            !(self.is_infinite() && rhs.is_zero()),
        ensures
            self.mul_spec(rhs).is_nonnegative(),
    {
        lemma_pow2_pos(1074);
        lemma_round_in_range(self.magnitude() * rhs.magnitude(), pow2(1074));
    }
}

/// The sum of two numbers of one sign is a number of that sign.
pub proof fn lemma_add_same_sign(a: Binary64, b: Binary64)
    requires
        !a.is_nan(),
        !b.is_nan(),
        a.is_negative() == b.is_negative(),
    ensures
        !a.add_spec(b).is_nan(),
        a.add_spec(b).is_negative() == a.is_negative(),
{
    lemma_round_in_range(a.magnitude() + b.magnitude(), 1);
}

} // verus!
