//! Bounds on results: a sum, product or quotient of values within known
//! powers of two is within a power of two that the operands give.

use vstd::prelude::*;
use vstd::arithmetic::power2::{pow2, lemma_pow2_pos, lemma_pow2_adds, lemma_pow2_unfold, lemma_pow2_strictly_increases};
use crate::float::pattern::{
    HIDDEN_BIT,
    INFINITY_PATTERN,
    pattern_value,
    lemma_pattern_compose,
    lemma_pattern_value_increasing,
};
use crate::float::rounding::{
    distance,
    floor_pattern,
    round_nearest_even,
    lemma_floor_exists,
    lemma_round_half_step,
    lemma_round_upper,
    lemma_round_lower,
};
use crate::float::pattern::{pattern_exponent, lemma_pattern_step};
use crate::float::pack::lemma_pow2_128;
use crate::float::signs::lemma_add_number;
use crate::float::binary64::Binary64;

verus! {

/// The pattern that stands for two to the `e` units, for `e` from 52.
pub open spec fn power_pattern(e: nat) -> u64 {
    ((e - 51) * HIDDEN_BIT) as u64
}

/// `power_pattern(e)` stands for two to the `e` units. At 2098 it is the
/// pattern of infinity.
pub proof fn lemma_power_pattern(e: nat)
    requires
        52 <= e <= 2098,
    ensures
        power_pattern(e) <= INFINITY_PATTERN,
        pattern_value(power_pattern(e)) == pow2(e),
        (e < 2098) == (power_pattern(e) < INFINITY_PATTERN),
{
    lemma_pow2_128();
    lemma_pattern_compose((e - 52) as nat, HIDDEN_BIT as nat);
    lemma_pow2_adds(52, (e - 52) as nat);
}

/// Powers of two grow with their exponents.
pub proof fn lemma_pow2_monotone(a: nat, b: nat)
    requires
        a <= b,
    ensures
        pow2(a) <= pow2(b),
{
    if a < b {
        lemma_pow2_strictly_increases(a, b);
    }
}

/// A fraction of at most two to the `e` units rounds to at most that.
pub proof fn lemma_round_within(n: nat, d: nat, e: nat)
    requires
        d > 0,
        52 <= e <= 2098,
        n <= pow2(e) * d,
    ensures
        round_nearest_even(n, d) <= power_pattern(e),
        pattern_value(round_nearest_even(n, d)) <= pow2(e),
{
    lemma_power_pattern(e);
    lemma_round_upper(n, d, power_pattern(e));
    if round_nearest_even(n, d) < power_pattern(e) {
        lemma_pattern_value_increasing(round_nearest_even(n, d), power_pattern(e));
    }
}

/// A fraction of at least two to the `e` units rounds to at least that.
pub proof fn lemma_round_reaches(n: nat, d: nat, e: nat)
    requires
        d > 0,
        52 <= e <= 2098,
        pow2(e) * d <= n,
    ensures
        round_nearest_even(n, d) >= power_pattern(e),
        round_nearest_even(n, d) <= INFINITY_PATTERN,
        pattern_value(round_nearest_even(n, d)) >= pow2(e),
{
    lemma_power_pattern(e);
    lemma_round_lower(n, d, power_pattern(e));
    if round_nearest_even(n, d) > power_pattern(e) {
        lemma_pattern_value_increasing(power_pattern(e), round_nearest_even(n, d));
    }
}

/// A fraction of at most two to the `e` units rounds to within two to the
/// `e - 54` units of itself: half a step of the values below two to the `e`.
pub proof fn lemma_round_error(n: nat, d: nat, e: nat)
    requires
        d > 0,
        54 <= e <= 2097,
        n <= pow2(e) * d,
    ensures
        distance(n, d, round_nearest_even(n, d)) <= pow2((e - 54) as nat) * d,
        round_nearest_even(n, d) <= power_pattern(e),
{
    let lo = floor_pattern(n, d);
    let top = power_pattern(e);
    lemma_floor_exists(n, d);
    lemma_power_pattern(e);
    lemma_round_within(n, d, e);
    lemma_pow2_pos((e - 54) as nat);
    if lo > top {
        lemma_pattern_value_increasing(top, lo);
        assert(pattern_value(top) * d < pattern_value(lo) * d) by (nonlinear_arith)
            requires
                pattern_value(top) < pattern_value(lo),
                d > 0,
        ;
    }
    if lo < top {
        let hi = (lo + 1) as u64;
        let step = pow2(pattern_exponent(lo));
        lemma_pattern_step(lo);
        lemma_round_half_step(n, d);
        assert(pattern_exponent(lo) <= e - 53);
        lemma_pow2_monotone(pattern_exponent(lo), (e - 53) as nat);
        lemma_pow2_unfold((e - 53) as nat);
        assert(step * d <= (2 * pow2((e - 54) as nat)) * d) by (nonlinear_arith)
            requires
                step <= 2 * pow2((e - 54) as nat),
                d > 0,
        ;
        assert((2 * pow2((e - 54) as nat)) * d == 2 * (pow2((e - 54) as nat) * d))
            by (nonlinear_arith);
    } else {
        assert(pow2((e - 54) as nat) * d >= 0) by (nonlinear_arith)
            requires
                pow2((e - 54) as nat) > 0,
                d > 0,
        ;
    }
}

impl Binary64 {
    /// The value is a number of magnitude at most two to the `e` units, which
    /// is 2^(e - 1074).
    pub open spec fn within(self, e: nat) -> bool {
        !self.is_nan() && self.magnitude() <= pow2(e)
    }

    /// The value is a number of magnitude at least two to the `e` units.
    pub open spec fn reaches(self, e: nat) -> bool {
        !self.is_nan() && self.magnitude() >= pow2(e)
    }

    /// A value within a power of two below 2^1024 is finite.
    pub proof fn lemma_within_finite(self, e: nat)
        requires
            self.within(e),
            e < 2098,
        ensures
            self.is_finite(),
    {
        lemma_power_pattern(2098);
        lemma_pow2_strictly_increases(e, 2098);
    }

    /// A value within one power of two is within every larger one.
    pub proof fn lemma_within_wider(self, e: nat, f: nat)
        requires
            self.within(e),
            e <= f,
        ensures
            self.within(f),
    {
        lemma_pow2_monotone(e, f);
    }

    /// The sum of two values within two to the `e` is within two to the `e + 1`.
    pub proof fn lemma_add_within(self, rhs: Binary64, e: nat)
        requires
            self.within(e),
            rhs.within(e),
            52 <= e < 2098,
        ensures
            self.add_spec(rhs).within(e + 1),
    {
        self.lemma_within_finite(e);
        rhs.lemma_within_finite(e);
        lemma_pow2_unfold(e + 1);
        let a = self.magnitude();
        let b = rhs.magnitude();
        crate::float::pattern::lemma_pattern_value_start();
        lemma_pow2_pos(e + 1);
        if self.is_negative() == rhs.is_negative() {
            lemma_round_within(a + b, 1, e + 1);
        } else if a > b {
            lemma_round_within((a - b) as nat, 1, e + 1);
        } else if a < b {
            lemma_round_within((b - a) as nat, 1, e + 1);
        }
    }

    /// The difference of two values within two to the `e` is within two to
    /// the `e + 1`.
    pub proof fn lemma_sub_within(self, rhs: Binary64, e: nat)
        requires
            self.within(e),
            rhs.within(e),
            52 <= e < 2098,
        ensures
            self.sub_spec(rhs).within(e + 1),
    {
        self.lemma_add_within(rhs.neg_spec(), e);
    }

    /// The product of a value within two to the `i` and one within two to the
    /// `j` is within two to the `i + j - 1074`.
    pub proof fn lemma_mul_within(self, rhs: Binary64, i: nat, j: nat)
        requires
            self.within(i),
            rhs.within(j),
            i < 2098,
            j < 2098,
            1126 <= i + j <= 3172,
        ensures
            self.mul_spec(rhs).within((i + j - 1074) as nat),
    {
        self.lemma_within_finite(i);
        rhs.lemma_within_finite(j);
        let e = (i + j - 1074) as nat;
        let a = self.magnitude();
        let b = rhs.magnitude();
        lemma_pow2_adds(i, j);
        lemma_pow2_adds(e, 1074);
        lemma_pow2_pos(1074);
        assert(a * b <= pow2(i) * pow2(j)) by (nonlinear_arith)
            requires
                a <= pow2(i),
                b <= pow2(j),
        ;
        lemma_round_within(a * b, pow2(1074), e);
    }

    /// The quotient of a value within two to the `i` by one that reaches two
    /// to the `j` is within two to the `i + 1074 - j`.
    pub proof fn lemma_div_within(self, rhs: Binary64, i: nat, j: nat)
        requires
            self.within(i),
            rhs.reaches(j),
            i < 2098,
            52 <= i + 1074 - j <= 2098,
        ensures
            self.div_spec(rhs).within((i + 1074 - j) as nat),
    {
        self.lemma_within_finite(i);
        let e = (i + 1074 - j) as nat;
        let a = self.magnitude();
        let b = rhs.magnitude();
        lemma_pow2_pos(j);
        lemma_pow2_pos(e);
        crate::float::pattern::lemma_pattern_value_start();
        if !rhs.is_infinite() {
            lemma_pow2_adds(i, 1074);
            lemma_pow2_adds(e, j);
            assert(a * pow2(1074) <= pow2(e) * b) by (nonlinear_arith)
                requires
                    a <= pow2(i),
                    pow2(i) * pow2(1074) == pow2(e) * pow2(j),
                    pow2(j) <= b,
                    pow2(e) > 0,
            ;
            lemma_round_within(a * pow2(1074), b, e);
        }
    }
}

/// The sum of two nonnegative values reaches what one of them reaches.
pub proof fn lemma_add_reaches(a: Binary64, b: Binary64, e: nat)
    requires
        a.is_nonnegative(),
        b.is_nonnegative(),
        b.reaches(e),
        52 <= e <= 2098,
    ensures
        a.add_spec(b).reaches(e),
{
    lemma_add_number(a, b);
    lemma_power_pattern(2098);
    lemma_pow2_monotone(e, 2098);
    if a.is_finite() && b.is_finite() {
        lemma_round_reaches(a.magnitude() + b.magnitude(), 1, e);
    }
}

/// A whole number of two to the `j` or more, as a binary64 value, is two to
/// the `j` or more.
pub proof fn lemma_from_int_reaches_power(v: int, j: nat)
    requires
        v >= pow2(j),
        j <= 1023,
    ensures
        Binary64::from_int_spec(v).reaches(1074 + j),
{
    lemma_pow2_pos(j);
    lemma_pow2_pos(1074);
    lemma_pow2_adds(j, 1074);
    assert(v * pow2(1074) >= pow2(j) * pow2(1074)) by (nonlinear_arith)
        requires
            v >= pow2(j),
            pow2(1074) > 0,
    ;
    lemma_round_reaches((v as nat) * pow2(1074), 1, 1074 + j);
}

/// A whole number of one or more, as a binary64 value, is one or more.
pub proof fn lemma_from_int_reaches(v: int)
    requires
        v >= 1,
    ensures
        Binary64::from_int_spec(v).reaches(1074),
{
    lemma_pow2_pos(1074);
    assert(v * pow2(1074) >= pow2(1074)) by (nonlinear_arith)
        requires
            v >= 1,
            pow2(1074) > 0,
    ;
    lemma_round_reaches((v as nat) * pow2(1074), 1, 1074);
}

impl Binary64 {
    /// The value is a number whose magnitude is at most that of `bound`.
    pub open spec fn no_larger_than(self, bound: Binary64) -> bool {
        !self.is_nan() && self.pattern() <= bound.pattern()
    }

    /// A value no larger than a bound within a power of two is within it.
    pub proof fn lemma_no_larger_within(self, bound: Binary64, e: nat)
        requires
            self.no_larger_than(bound),
            bound.within(e),
        ensures
            self.within(e),
    {
        if self.pattern() < bound.pattern() {
            lemma_pattern_value_increasing(self.pattern(), bound.pattern());
        }
    }

    /// A value no larger than a positive bound lies between minus the bound
    /// and the bound.
    pub proof fn lemma_between(self, bound: Binary64)
        requires
            self.no_larger_than(bound),
            !bound.is_nan(),
            !bound.is_negative(),
        ensures
            !bound.lt_spec(self),
            !self.lt_spec(bound.neg_spec()),
    {
        bound.lemma_key_order(self);
        self.lemma_key_order(bound.neg_spec());
    }
}

/// A whole number from zero to two to the `j`, as a binary64 value, is
/// within two to the `j`.
pub proof fn lemma_from_int_within(v: int, j: nat)
    requires
        0 <= v <= pow2(j),
        j <= 1024,
    ensures
        Binary64::from_int_spec(v).within(1074 + j),
        !Binary64::from_int_spec(v).is_negative(),
{
    lemma_pow2_adds(j, 1074);
    assert(v * pow2(1074) <= pow2(j) * pow2(1074)) by (nonlinear_arith)
        requires
            0 <= v <= pow2(j),
    ;
    lemma_round_within((v as nat) * pow2(1074), 1, 1074 + j);
}

impl Binary64 {
    /// A value that reaches a power of two is not zero.
    pub proof fn lemma_reaches_nonzero(self, e: nat)
        requires
            self.reaches(e),
        ensures
            !self.is_zero(),
    {
        crate::float::pattern::lemma_pattern_value_start();
        lemma_pow2_pos(e);
    }

    /// The product of a value that reaches two to the `i` and one that
    /// reaches two to the `j` reaches two to the `i + j - 1074`.
    pub proof fn lemma_mul_reaches(self, rhs: Binary64, i: nat, j: nat)
        requires
            self.reaches(i),
            rhs.reaches(j),
            1126 <= i + j <= 3172,
        ensures
            self.mul_spec(rhs).reaches((i + j - 1074) as nat),
    {
        let e = (i + j - 1074) as nat;
        let a = self.magnitude();
        let b = rhs.magnitude();
        self.lemma_reaches_nonzero(i);
        rhs.lemma_reaches_nonzero(j);
        lemma_power_pattern(2098);
        lemma_pow2_monotone(e, 2098);
        lemma_pow2_adds(i, j);
        lemma_pow2_adds(e, 1074);
        lemma_pow2_pos(1074);
        if self.is_finite() && rhs.is_finite() {
            assert(pow2(i) * pow2(j) <= a * b) by (nonlinear_arith)
                requires
                    pow2(i) <= a,
                    pow2(j) <= b,
            ;
            lemma_round_reaches(a * b, pow2(1074), e);
        }
    }

    /// The quotient of a value that reaches two to the `i` by one within two
    /// to the `j` reaches two to the `i + 1074 - j`.
    pub proof fn lemma_div_reaches(self, rhs: Binary64, i: nat, j: nat)
        requires
            self.reaches(i),
            rhs.within(j),
            j < 2098,
            52 <= i + 1074 - j <= 2098,
        ensures
            self.div_spec(rhs).reaches((i + 1074 - j) as nat),
    {
        let e = (i + 1074 - j) as nat;
        let a = self.magnitude();
        let b = rhs.magnitude();
        self.lemma_reaches_nonzero(i);
        rhs.lemma_within_finite(j);
        lemma_power_pattern(2098);
        lemma_pow2_monotone(e, 2098);
        crate::float::pattern::lemma_pattern_value_start();
        if self.is_finite() && !rhs.is_zero() {
            lemma_pattern_value_increasing(0, rhs.pattern());
            lemma_pow2_adds(i, 1074);
            lemma_pow2_adds(e, j);
            lemma_pow2_pos(e);
            assert(pow2(e) * b <= a * pow2(1074)) by (nonlinear_arith)
                requires
                    pow2(i) <= a,
                    pow2(i) * pow2(1074) == pow2(e) * pow2(j),
                    b <= pow2(j),
                    pow2(e) > 0,
            ;
            lemma_round_reaches(a * pow2(1074), b, e);
        }
    }

    /// The product of a value no larger than a bound and one within one is
    /// no larger than the bound.
    pub proof fn lemma_mul_no_larger(self, rhs: Binary64, bound: Binary64)
        requires
            self.no_larger_than(bound),
            bound.is_finite(),
            rhs.within(1074),
        ensures
            self.mul_spec(rhs).no_larger_than(bound),
    {
        rhs.lemma_within_finite(1074);
        let a = self.magnitude();
        let b = rhs.magnitude();
        if self.pattern() < bound.pattern() {
            lemma_pattern_value_increasing(self.pattern(), bound.pattern());
        }
        lemma_pow2_pos(1074);
        assert(a * b <= bound.magnitude() * pow2(1074)) by (nonlinear_arith)
            requires
                a <= bound.magnitude(),
                b <= pow2(1074),
        ;
        lemma_round_upper(a * b, pow2(1074), bound.pattern());
    }
}

/// A number of 53 digits or fewer, at an exponent with room to move its
/// leading digit to the top, is the value of a pattern.
pub proof fn lemma_scaled_pattern(m: nat, k: nat, room: nat)
    requires
        m < 0x0020_0000_0000_0000,
        m * pow2(room) >= HIDDEN_BIT,
        room <= k <= 2045,
    ensures
        exists|p: u64| p < INFINITY_PATTERN && pattern_value(p) == m * pow2(k),
    decreases room,
{
    if m >= HIDDEN_BIT {
        lemma_pattern_compose(k, m);
        assert(k * HIDDEN_BIT + m < INFINITY_PATTERN) by (nonlinear_arith)
            requires
                k <= 2045,
                m < 0x0020_0000_0000_0000,
        ;
        assert(pattern_value((k * HIDDEN_BIT + m) as u64) == m * pow2(k));
    } else {
        if room == 0 {
            vstd::arithmetic::power2::lemma2_to64();
            assert(m * pow2(0) == m) by (nonlinear_arith)
                requires
                    pow2(0) == 1,
            ;
        } else {
            lemma_pow2_unfold(room);
            lemma_pow2_unfold(k);
            assert((2 * m) * pow2((room - 1) as nat) == m * (2 * pow2((room - 1) as nat)))
                by (nonlinear_arith);
            lemma_scaled_pattern(2 * m, (k - 1) as nat, (room - 1) as nat);
            assert((2 * m) * pow2((k - 1) as nat) == m * (2 * pow2((k - 1) as nat)))
                by (nonlinear_arith);
        }
    }
}

/// A whole number below 2^53 in magnitude is a binary64 value, and dropping
/// the fraction of that value gives the number back.
pub proof fn lemma_from_int_exact(v: int)
    requires
        -0x0020_0000_0000_0000 < v < 0x0020_0000_0000_0000,
    ensures
        Binary64::from_int_spec(v).is_finite(),
        Binary64::from_int_spec(v).magnitude() == (if v < 0 {
            -v
        } else {
            v
        }) * pow2(1074),
        Binary64::from_int_spec(v).truncation() == v,
        v != 0 ==> Binary64::from_int_spec(v).is_negative() == (v < 0),
{
    let size = (if v < 0 {
        -v
    } else {
        v
    }) as nat;
    let unit = pow2(1074);
    lemma_pow2_pos(1074);
    crate::float::pattern::lemma_pattern_value_start();
    if size == 0 {
        assert(size * unit == 0) by (nonlinear_arith)
            requires
                size == 0,
        ;
        lemma_round_upper(0, 1, 0);
    } else {
        lemma_pow2_128();
        assert(size * pow2(52) >= HIDDEN_BIT) by (nonlinear_arith)
            requires
                size >= 1,
                pow2(52) == HIDDEN_BIT,
        ;
        lemma_scaled_pattern(size, 1074, 52);
        let p = choose|p: u64| p < INFINITY_PATTERN && pattern_value(p) == size * unit;
        assert(pattern_value(p) * 1 == size * unit);
        crate::float::rounding::lemma_round_exact(p, 1);
    }
    vstd::arithmetic::div_mod::lemma_div_by_multiple(size as int, unit as int);
}

} // verus!
