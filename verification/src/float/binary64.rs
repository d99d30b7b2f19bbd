//! The binary64 value: a sign and a magnitude pattern in one 64-bit word.

use vstd::prelude::*;
use crate::float::pattern::{
    SIGN_MASK,
    HIDDEN_BIT,
    INFINITY_PATTERN,
    NAN_PATTERN,
    pattern_exponent,
    pattern_significand,
    pattern_value,
    lemma_pattern_value_increasing,
};

verus! {

/// An IEEE 754 binary64 value, held as its bit pattern.
#[derive(Clone, Copy, Debug)]
pub struct Binary64 {
    pub bits: u64,
}

impl Binary64 {
    /// The value with the given sign and magnitude pattern.
    pub open spec fn signed(negative: bool, pattern: u64) -> Binary64 {
        Binary64 {
            bits: if negative {
                (pattern + SIGN_MASK) as u64
            } else {
                pattern
            },
        }
    }

    /// The quiet not-a-number that operations produce.
    pub open spec fn nan() -> Binary64 {
        Binary64 { bits: NAN_PATTERN }
    }

    /// The bits below the sign.
    pub open spec fn pattern(self) -> u64 {
        if self.bits >= SIGN_MASK {
            (self.bits - SIGN_MASK) as u64
        } else {
            self.bits
        }
    }

    /// Whether the sign bit is set.
    pub open spec fn is_negative(self) -> bool {
        self.bits >= SIGN_MASK
    }

    /// Whether the value is not a number.
    pub open spec fn is_nan(self) -> bool {
        self.pattern() > INFINITY_PATTERN
    }

    /// Whether the value is an infinity.
    pub open spec fn is_infinite(self) -> bool {
        self.pattern() == INFINITY_PATTERN
    }

    /// Whether the value is a number other than an infinity.
    pub open spec fn is_finite(self) -> bool {
        self.pattern() < INFINITY_PATTERN
    }

    /// Whether the value is a zero of either sign.
    pub open spec fn is_zero(self) -> bool {
        self.pattern() == 0
    }

    /// The absolute value in units of 2^-1074; for an infinity, 2^2098.
    pub open spec fn magnitude(self) -> nat
        recommends
            !self.is_nan(),
    {
        pattern_value(self.pattern())
    }

    /// The value in units of 2^-1074, with its sign.
    pub open spec fn extended(self) -> int
        recommends
            !self.is_nan(),
    {
        if self.is_negative() {
            -(self.magnitude() as int)
        } else {
            self.magnitude() as int
        }
    }

    /// Numeric equality: neither is not-a-number and the values agree, so that
    /// the two zeros are equal.
    pub open spec fn eq_spec(self, rhs: Binary64) -> bool {
        !self.is_nan() && !rhs.is_nan() && self.extended() == rhs.extended()
    }

    /// Numeric order; false where either is not-a-number.
    pub open spec fn lt_spec(self, rhs: Binary64) -> bool {
        !self.is_nan() && !rhs.is_nan() && self.extended() < rhs.extended()
    }

    /// Numeric order or equality; false where either is not-a-number.
    pub open spec fn le_spec(self, rhs: Binary64) -> bool {
        !self.is_nan() && !rhs.is_nan() && self.extended() <= rhs.extended()
    }

    /// The value with its sign bit flipped.
    pub open spec fn neg_spec(self) -> Binary64 {
        Binary64::signed(!self.is_negative(), self.pattern())
    }

    /// The absolute value as a comparison finds it: negated where the value is below zero.
    pub open spec fn abs_spec(self) -> Binary64 {
        if self.lt_spec(Binary64::signed(false, 0)) {
            self.neg_spec()
        } else {
            self
        }
    }

    /// The value with the given bit pattern.
    pub fn from_bits(bits: u64) -> (r: Binary64)
        ensures
            r.bits == bits,
    {
        Binary64 { bits }
    }

    /// The bit pattern of the value.
    pub fn to_bits(self) -> (r: u64)
        ensures
            r == self.bits,
    {
        self.bits
    }

    /// Puts a sign on a magnitude pattern.
    pub fn with_sign(negative: bool, pattern: u64) -> (r: Binary64)
        requires
            pattern < SIGN_MASK,
        ensures
            r == Binary64::signed(negative, pattern),
            r.pattern() == pattern,
            r.is_negative() == negative,
    {
        if negative {
            Binary64 { bits: pattern + SIGN_MASK }
        } else {
            Binary64 { bits: pattern }
        }
    }

    /// The quiet not-a-number.
    pub fn quiet_nan() -> (r: Binary64)
        ensures
            r == Binary64::nan(),
            r.is_nan(),
    {
        Binary64 { bits: NAN_PATTERN }
    }

    /// The bits below the sign.
    pub fn magnitude_pattern(self) -> (r: u64)
        ensures
            r == self.pattern(),
            r < SIGN_MASK,
    {
        if self.bits >= SIGN_MASK {
            self.bits - SIGN_MASK
        } else {
            self.bits
        }
    }

    /// Whether the sign bit is set.
    pub fn sign_bit(self) -> (r: bool)
        ensures
            r == self.is_negative(),
    {
        self.bits >= SIGN_MASK
    }

    /// Whether the value is not a number.
    pub fn not_a_number(self) -> (r: bool)
        ensures
            r == self.is_nan(),
    {
        self.magnitude_pattern() > INFINITY_PATTERN
    }

    /// Significand and exponent of a value that is not not-a-number.
    pub fn decode(self) -> (r: (u64, u64))
        requires
            !self.is_nan(),
        ensures
            r.0 == pattern_significand(self.pattern()),
            r.1 == pattern_exponent(self.pattern()),
            r.0 < 2 * HIDDEN_BIT,
            r.1 <= 2046,
            r.1 == 0 || r.0 >= HIDDEN_BIT,
            self.magnitude() == r.0 * vstd::arithmetic::power2::pow2(r.1 as nat),
    {
        let p: u64 = self.magnitude_pattern();
        let e: u64 = p / HIDDEN_BIT;
        if e == 0 {
            (p, 0)
        } else {
            (HIDDEN_BIT + p % HIDDEN_BIT, e - 1)
        }
    }

    /// The order key: patterns of negative values count downward.
    pub open spec fn key(self) -> int {
        if self.is_negative() {
            -(self.pattern() as int)
        } else {
            self.pattern() as int
        }
    }

    /// The key orders values as their magnitudes with sign do.
    pub proof fn lemma_key_order(self, rhs: Binary64)
        requires
            !self.is_nan(),
            !rhs.is_nan(),
        ensures
            (self.key() < rhs.key()) == (self.extended() < rhs.extended()),
            (self.key() == rhs.key()) == (self.extended() == rhs.extended()),
    {
        let p = self.pattern();
        let q = rhs.pattern();
        if p < q {
            lemma_pattern_value_increasing(p, q);
        }
        if q < p {
            lemma_pattern_value_increasing(q, p);
        }
        if 0 < p {
            lemma_pattern_value_increasing(0, p);
        }
        if 0 < q {
            lemma_pattern_value_increasing(0, q);
        }
        crate::float::pattern::lemma_pattern_value_start();
    }

    fn order_key(self) -> (r: i64)
        requires
            !self.is_nan(),
        ensures
            r == self.key(),
    {
        let p: u64 = self.magnitude_pattern();
        if self.sign_bit() {
            -(p as i64)
        } else {
            p as i64
        }
    }

    /// Numeric `==`.
    pub fn eq(self, rhs: Binary64) -> (r: bool)
        ensures
            r == self.eq_spec(rhs),
    {
        if self.not_a_number() || rhs.not_a_number() {
            return false;
        }
        proof {
            self.lemma_key_order(rhs);
        }
        self.order_key() == rhs.order_key()
    }

    /// Numeric `<`.
    pub fn lt(self, rhs: Binary64) -> (r: bool)
        ensures
            r == self.lt_spec(rhs),
    {
        if self.not_a_number() || rhs.not_a_number() {
            return false;
        }
        proof {
            self.lemma_key_order(rhs);
        }
        self.order_key() < rhs.order_key()
    }

    /// Numeric `<=`.
    pub fn le(self, rhs: Binary64) -> (r: bool)
        ensures
            r == self.le_spec(rhs),
    {
        if self.not_a_number() || rhs.not_a_number() {
            return false;
        }
        proof {
            self.lemma_key_order(rhs);
        }
        self.order_key() <= rhs.order_key()
    }

    /// Numeric `>`.
    pub fn gt(self, rhs: Binary64) -> (r: bool)
        ensures
            r == rhs.lt_spec(self),
    {
        rhs.lt(self)
    }

    /// Numeric `>=`.
    pub fn ge(self, rhs: Binary64) -> (r: bool)
        ensures
            r == rhs.le_spec(self),
    {
        rhs.le(self)
    }

    /// The value with its sign flipped.
    pub fn neg(self) -> (r: Binary64)
        ensures
            r == self.neg_spec(),
    {
        Binary64::with_sign(!self.sign_bit(), self.magnitude_pattern())
    }

    /// The absolute value, by comparison with zero.
    pub fn abs(self) -> (r: Binary64)
        ensures
            r == self.abs_spec(),
    {
        if self.lt(Binary64::with_sign(false, 0)) {
            self.neg()
        } else {
            self
        }
    }
}

} // verus!
