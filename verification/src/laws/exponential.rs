//! The exponential takes its series at a small remainder.

use vstd::prelude::*;
use vstd::arithmetic::power2::{pow2, lemma_pow2_pos, lemma_pow2_adds, lemma_pow2_unfold};
use crate::float::pattern::{
    HIDDEN_BIT,
    INFINITY_PATTERN,
    pattern_value,
    lemma_pattern_compose,
    lemma_pattern_value_increasing,
    lemma_pattern_value_start,
};
use crate::float::rounding::lemma_round_lower;
use crate::float::signs::lemma_mul_sign;
use crate::float::bounds::{lemma_from_int_exact, lemma_from_int_reaches_power};
use crate::float::constants::{ONE_BITS, TWO_BITS};
use crate::laws::powers::{power, lemma_powi_of_two};
use crate::function_approximations::{
    factorial,
    lemma_factorials,
    scaled_power,
    exp_term,
    exp_series,
    exp_approx_spec,
    static_powi_spec,
};
use crate::float::rounding::{distance, round_nearest_even};
use crate::float::bounds::{
    lemma_power_pattern,
    lemma_pow2_monotone,
    lemma_round_error,
    lemma_round_within,
};
use crate::float::binary64::Binary64;
use crate::float::constants::{
    constant,
    ZERO_BITS,
    HALF_BITS,
    LN_2_BITS,
    lemma_constant_magnitudes,
};
use crate::float::convert::clamp;
use crate::function_approximations::{
    round_const_whole,
    round_const_spec,
    exp_scale,
    exp_remainder,
};

verus! {

/// The logarithm of two lies between a half and seven tenths.
pub proof fn lemma_ln_2_magnitude()
    ensures
        pow2(1073) <= constant(LN_2_BITS).magnitude(),
        10 * constant(LN_2_BITS).magnitude() <= 7 * pow2(1074),
        constant(LN_2_BITS).is_finite(),
        !constant(LN_2_BITS).is_negative(),
{
    let m: nat = 6243314768165359;
    crate::float::pack::lemma_pow2_128();
    lemma_pow2_adds(52, 1021);
    lemma_pow2_adds(53, 1021);
    assert(constant(LN_2_BITS).magnitude() == m * pow2(1021));
    assert(m * pow2(1021) >= 0x0010_0000_0000_0000 * pow2(1021)) by (nonlinear_arith)
        requires
            m >= 0x0010_0000_0000_0000,
    ;
    assert(10 * (m * pow2(1021)) <= 7 * (0x0020_0000_0000_0000 * pow2(1021)))
        by (nonlinear_arith)
        requires
            10 * m <= 7 * 0x0020_0000_0000_0000,
    ;
}

/// The quotient of a number up to 512 in magnitude by the logarithm of two
/// is a number of the same sign, up to twice the bound of the number in
/// magnitude, and lies within 2^-44 of the exact quotient.
pub proof fn lemma_exp_quotient(x: Binary64, e: nat)
    requires
        x.within(e),
        54 <= e <= 1083,
    ensures
        !x.div_spec(constant(LN_2_BITS)).is_nan(),
        x.div_spec(constant(LN_2_BITS)).within(e + 1),
        x.div_spec(constant(LN_2_BITS)).within(1084),
        x.div_spec(constant(LN_2_BITS)).is_negative() == x.is_negative(),
        distance(
            x.magnitude() * pow2(1074),
            constant(LN_2_BITS).magnitude(),
            x.div_spec(constant(LN_2_BITS)).pattern(),
        ) <= pow2(1030) * constant(LN_2_BITS).magnitude(),
{
    let ln_2 = constant(LN_2_BITS);
    let unit = pow2(1074);
    let n = x.magnitude() * unit;
    let d = ln_2.magnitude();
    lemma_ln_2_magnitude();
    lemma_pattern_value_start();
    x.lemma_within_wider(e, 1083);
    x.lemma_within_finite(1083);
    lemma_pow2_pos(1073);
    lemma_pow2_adds(1083, 1074);
    lemma_pow2_adds(1084, 1073);
    assert(n <= pow2(1084) * d) by (nonlinear_arith)
        requires
            n == x.magnitude() * unit,
            x.magnitude() <= pow2(1083),
            pow2(1083) * unit == pow2(1084) * pow2(1073),
            pow2(1073) <= d,
            unit > 0,
    {
        lemma_pow2_pos(1074);
    }
    lemma_round_error(n, d, 1084);
    lemma_round_within(n, d, 1084);
    lemma_pow2_monotone(e, 1083);
    lemma_pow2_adds(e, 1074);
    lemma_pow2_adds(e + 1, 1073);
    assert(n <= pow2(e + 1) * d) by (nonlinear_arith)
        requires
            n == x.magnitude() * unit,
            x.magnitude() <= pow2(e),
            pow2(e) * unit == pow2(e + 1) * pow2(1073),
            pow2(1073) <= d,
            unit > 0,
    ;
    lemma_round_within(n, d, e + 1);
}

/// Rounding by a half moves a number up to 1024 in magnitude by at most a
/// half and 2^-42, and leaves it its sign or makes it zero.
pub proof fn lemma_round_const_near(q: Binary64)
    requires
        q.within(1084),
    ensures
        !round_const_spec(q).is_nan(),
        round_const_spec(q).within(1085),
        round_const_spec(q).is_zero() || round_const_spec(q).is_negative() == q.is_negative(),
        round_const_spec(q).magnitude() <= q.magnitude() + pow2(1073) + pow2(1032),
        q.magnitude() <= round_const_spec(q).magnitude() + pow2(1073) + pow2(1032),
        -2048 <= round_const_whole(q) <= 2048,
        round_const_whole(q) * pow2(1074) <= q.magnitude() + pow2(1073) + pow2(1031),
        -round_const_whole(q) * pow2(1074) <= q.magnitude() + pow2(1073) + pow2(1031),
{
    let half = constant(HALF_BITS);
    let unit = pow2(1074);
    let moved = if constant(ZERO_BITS).le_spec(q) {
        q.add_spec(half)
    } else {
        q.sub_spec(half)
    };
    let whole = moved.magnitude() / unit;
    let sum = q.magnitude() + pow2(1073);
    lemma_constant_magnitudes();
    lemma_pattern_value_start();
    q.lemma_within_finite(1084);
    q.lemma_key_order(constant(ZERO_BITS));
    lemma_pow2_unfold(1085);
    lemma_pow2_unfold(1084);
    lemma_pow2_unfold(1032);
    lemma_pow2_pos(1031);
    lemma_pow2_pos(1074);
    lemma_pow2_monotone(1073, 1084);
    // The half is added to the magnitude, whichever the sign.
    lemma_round_error(sum, 1, 1085);
    lemma_round_within(sum, 1, 1085);
    assert(moved.magnitude() == pattern_value(round_nearest_even(sum, 1)));
    assert(!moved.is_nan());
    // The fraction is dropped.
    assert(whole * unit <= moved.magnitude() < whole * unit + unit) by (nonlinear_arith)
        requires
            whole == moved.magnitude() / unit,
            unit > 0,
    ;
    assert(moved.truncation() == if moved.is_negative() {
        -(whole as int)
    } else {
        whole as int
    });
    lemma_pow2_adds(11, 1074);
    vstd::arithmetic::power2::lemma2_to64();
    assert(whole <= pow2(11)) by (nonlinear_arith)
        requires
            whole * unit <= pow2(1085),
            pow2(1085) == pow2(11) * unit,
            unit > 0,
    ;
    assert(clamp(moved.truncation(), i64::MIN as int, i64::MAX as int) == moved.truncation());
    // The whole number is a binary64 value of its own.
    lemma_round_error(whole * unit, 1, 1085);
    lemma_round_within(whole * unit, 1, 1085);
    if q.is_zero() {
        // A half alone has no whole part.
        lemma_round_within(sum, 1, 1073);
        assert(whole == 0) by (nonlinear_arith)
            requires
                whole * unit <= pow2(1073),
                pow2(1073) < unit,
                whole >= 0,
        ;
    }
    if whole == 0 {
        assert(whole * unit == 0) by (nonlinear_arith)
            requires
                whole == 0,
        ;
        crate::float::rounding::lemma_round_upper(0, 1, 0);
    }
    let t = round_const_whole(q);
    assert(t * unit <= whole * unit && -t * unit <= whole * unit) by (nonlinear_arith)
        requires
            t == whole || t == -whole,
            whole >= 0,
            unit > 0,
    ;
}

/// Three roundings in a row stay within a half: where `q` is within
/// `2^1030 * l` of `x * u` over `l`, `n` within a half and `2^1032` of `q`,
/// and `p * u` within `2^1031 * u` of `n * l`, with `l` at most seven tenths
/// of the unit `u`, `p` is within half a unit of `x`.
proof fn lemma_three_roundings(x: int, q: int, n: int, p: int, l: int, u: int, w: int)
    requires
        w > 0,
        u == 0x1_0000_0000_000 * w,
        0 <= l,
        10 * l <= 7 * u,
        -(w * l) <= x * u - q * l <= w * l,
        -(0x800_0000_0000 * w + 4 * w) <= q - n <= 0x800_0000_0000 * w + 4 * w,
        -((2 * w) * u) <= n * l - p * u <= (2 * w) * u,
    ensures
        -(0x800_0000_0000 * w) <= x - p <= 0x800_0000_0000 * w,
{
    let a = x * u - q * l;
    let b = q - n;
    let c = n * l - p * u;
    let eb = 0x800_0000_0000 * w + 4 * w;
    assert((x - p) * u == a + b * l + c) by (nonlinear_arith)
        requires
            a == x * u - q * l,
            b == q - n,
            c == n * l - p * u,
    ;
    assert(-(eb * l) <= b * l <= eb * l) by (nonlinear_arith)
        requires
            -eb <= b <= eb,
            0 <= l,
    ;
    assert(10 * (eb * l) <= 7 * (eb * u)) by (nonlinear_arith)
        requires
            10 * l <= 7 * u,
            eb >= 0,
    ;
    assert(10 * (w * l) <= 7 * (w * u)) by (nonlinear_arith)
        requires
            10 * l <= 7 * u,
            w >= 0,
    ;
    assert(eb * u == (0x800_0000_0000 * w) * u + 4 * (w * u)) by (nonlinear_arith)
        requires
            eb == 0x800_0000_0000 * w + 4 * w,
    ;
    assert((2 * w) * u == 2 * (w * u)) by (nonlinear_arith);
    let half = (0x800_0000_0000 * w) * u;
    let small = w * u;
    assert(55 * small <= 3 * half) by (nonlinear_arith)
        requires
            small == w * u,
            half == (0x800_0000_0000 * w) * u,
            w > 0,
            u > 0,
    ;
    assert(-half <= (x - p) * u <= half);
    assert(-(0x800_0000_0000 * w) <= x - p <= 0x800_0000_0000 * w) by (nonlinear_arith)
        requires
            -half <= (x - p) * u <= half,
            half == (0x800_0000_0000 * w) * u,
            u > 0,
    ;
}

/// For every number up to 512 in magnitude, the scale of the exponential is
/// a number up to 2048 in magnitude, and the remainder at which the series
/// is taken is at most a half in magnitude.
pub proof fn lemma_exp_remainder(x: Binary64)
    requires
        x.within(1083),
    ensures
        exp_scale(x).within(1085),
        exp_scale(x).is_zero() || exp_scale(x).is_negative() == x.is_negative(),
        exp_remainder(x).within(1073),
{
    let ln_2 = constant(LN_2_BITS);
    let unit = pow2(1074);
    let w = pow2(1030);
    let q = x.div_spec(ln_2);
    let scale = exp_scale(x);
    let product = scale.mul_spec(ln_2);
    let l = ln_2.magnitude();
    lemma_ln_2_magnitude();
    lemma_pattern_value_start();
    lemma_exp_quotient(x, 1083);
    lemma_round_const_near(q);
    x.lemma_within_finite(1083);
    scale.lemma_within_finite(1085);
    lemma_pow2_pos(1030);
    lemma_pow2_pos(1074);
    lemma_pow2_unfold(1031);
    lemma_pow2_unfold(1032);
    lemma_pow2_adds(43, 1030);
    lemma_pow2_adds(44, 1030);
    vstd::arithmetic::power2::lemma2_to64_rest();
    // The product of the scale and the logarithm of two.
    let n3 = scale.magnitude() * l;
    assert(n3 <= pow2(1085) * unit) by (nonlinear_arith)
        requires
            n3 == scale.magnitude() * l,
            scale.magnitude() <= pow2(1085),
            10 * l <= 7 * unit,
            l >= 0,
    ;
    lemma_round_error(n3, unit, 1085);
    lemma_round_within(n3, unit, 1085);
    assert(product.magnitude() == pattern_value(round_nearest_even(n3, unit)));
    lemma_pow2_unfold(1031);
    assert(pow2(1031) * unit == (2 * w) * unit) by (nonlinear_arith)
        requires
            pow2(1031) == 2 * w,
    ;
    if scale.is_zero() {
        assert(n3 == 0) by (nonlinear_arith)
            requires
                n3 == scale.magnitude() * l,
                scale.magnitude() == 0,
        ;
        crate::float::rounding::lemma_round_upper(0, unit, 0);
    }
    lemma_three_roundings(
        x.magnitude() as int,
        q.magnitude() as int,
        scale.magnitude() as int,
        product.magnitude() as int,
        l as int,
        unit as int,
        w as int,
    );
    // The remainder is the difference of the magnitudes, rounded.
    let gap = if x.magnitude() >= product.magnitude() {
        (x.magnitude() - product.magnitude()) as nat
    } else {
        (product.magnitude() - x.magnitude()) as nat
    };
    lemma_round_within(gap, 1, 1073);
}

/// A quarter and 2^-(k+1): what the sum of the series stays above after the
/// term `k`, as a pattern.
pub open spec fn low_pattern(k: nat) -> u64 {
    (1021 * HIDDEN_BIT + pow2((53 - k) as nat)) as u64
}

/// `low_pattern(k)` stands for a quarter and 2^-(k+1).
pub proof fn lemma_low_pattern(k: nat)
    requires
        1 <= k <= 53,
    ensures
        0 < low_pattern(k) < INFINITY_PATTERN,
        pattern_value(low_pattern(k)) == pow2(1072) + pow2((1073 - k) as nat),
{
    let bit = pow2((53 - k) as nat);
    crate::float::pack::lemma_pow2_128();
    lemma_pow2_monotone((53 - k) as nat, 52);
    lemma_pow2_pos((53 - k) as nat);
    lemma_pattern_compose(1020, (HIDDEN_BIT + bit) as nat);
    lemma_pow2_adds(52, 1020);
    lemma_pow2_adds((53 - k) as nat, 1020);
    assert((HIDDEN_BIT + bit) * pow2(1020) == HIDDEN_BIT * pow2(1020) + bit * pow2(1020))
        by (nonlinear_arith);
}

/// A number that is not negative, plus a number so small that the sum stays
/// at or above the value of a pattern, is not negative and not below the
/// pattern.
pub proof fn lemma_add_above(a: Binary64, b: Binary64, e: nat, c: u64)
    requires
        a.is_finite(),
        !a.is_negative(),
        b.within(e),
        e < 2098,
        0 < c <= INFINITY_PATTERN,
        a.magnitude() >= pattern_value(c) + pow2(e),
    ensures
        !a.add_spec(b).is_nan(),
        !a.add_spec(b).is_negative(),
        a.add_spec(b).pattern() >= c,
{
    b.lemma_within_finite(e);
    lemma_pattern_value_start();
    lemma_pattern_value_increasing(0, c);
    if a.is_negative() == b.is_negative() {
        lemma_round_lower(a.magnitude() + b.magnitude(), 1, c);
    } else {
        lemma_round_lower((a.magnitude() - b.magnitude()) as nat, 1, c);
    }
}

/// The powers of a number within a half halve with each step.
pub proof fn lemma_power_shrinks(r: Binary64, j: nat)
    requires
        r.within(1073),
        j <= 20,
    ensures
        scaled_power(r, r, j).within((1073 - j) as nat),
    decreases j,
{
    if j > 0 {
        lemma_power_shrinks(r, (j - 1) as nat);
        scaled_power(r, r, (j - 1) as nat).lemma_mul_within(r, (1074 - j) as nat, 1073);
    }
}

/// At a remainder within a half, the series of the exponential stays a
/// number between a quarter and 2^k.
pub proof fn lemma_exp_series_bounds(r: Binary64, k: nat)
    requires
        r.within(1073),
        1 <= k <= 19,
    ensures
        !exp_series(r, k).is_nan(),
        !exp_series(r, k).is_negative(),
        exp_series(r, k).within(1074 + k),
        exp_series(r, k).pattern() >= low_pattern(k),
    decreases k,
{
    let one = constant(ONE_BITS);
    lemma_constant_magnitudes();
    lemma_low_pattern(k);
    lemma_pow2_unfold(1074);
    lemma_pow2_unfold(1073);
    if k == 1 {
        assert(exp_series(r, 0) == one);
        r.lemma_within_wider(1073, 1074);
        one.lemma_add_within(r, 1074);
        lemma_add_above(one, r, 1073, low_pattern(1));
    } else {
        let before = exp_series(r, (k - 1) as nat);
        let term = exp_term(r, k);
        let den = Binary64::from_int_spec(factorial(k) as int);
        lemma_exp_series_bounds(r, (k - 1) as nat);
        lemma_low_pattern((k - 1) as nat);
        lemma_factorials();
        // The term is within 2^-(k+1).
        lemma_power_shrinks(r, (k - 1) as nat);
        vstd::arithmetic::power2::lemma2_to64();
        lemma_from_int_reaches_power(factorial(k) as int, 1);
        scaled_power(r, r, (k - 1) as nat).lemma_div_within(den, (1074 - k) as nat, 1075);
        // The sum before it has room for it.
        before.lemma_within_finite((1073 + k) as nat);
        if low_pattern((k - 1) as nat) < before.pattern() {
            lemma_pattern_value_increasing(low_pattern((k - 1) as nat), before.pattern());
        }
        lemma_pow2_unfold((1074 - k) as nat);
        lemma_add_above(before, term, (1073 - k) as nat, low_pattern(k));
        term.lemma_within_wider((1073 - k) as nat, (1073 + k) as nat);
        before.lemma_add_within(term, (1073 + k) as nat);
    }
}

/// The exponential of every number up to 256 in magnitude is a number above
/// zero and no infinity.
pub proof fn lemma_exp_positive(x: Binary64)
    requires
        x.within(1082),
    ensures
        exp_approx_spec(x).is_finite(),
        !exp_approx_spec(x).is_negative(),
        !exp_approx_spec(x).is_zero(),
{
    let ln_2 = constant(LN_2_BITS);
    let unit = pow2(1074);
    lemma_constant_magnitudes();
    lemma_pattern_value_start();
    if !x.eq_spec(constant(ZERO_BITS)) {
        let q = x.div_spec(ln_2);
        let whole = round_const_whole(q);
        lemma_exp_quotient(x, 1082);
        lemma_round_const_near(q);
        // The scale is a whole number up to 512 in magnitude.
        lemma_pow2_adds(9, 1074);
        lemma_pow2_monotone(1031, 1073);
        lemma_pow2_unfold(1074);
        lemma_pow2_pos(1074);
        vstd::arithmetic::power2::lemma2_to64();
        assert(-513 <= whole <= 513) by (nonlinear_arith)
            requires
                whole * unit <= pow2(1083) + pow2(1073) + pow2(1073),
                -whole * unit <= pow2(1083) + pow2(1073) + pow2(1073),
                pow2(1083) == 512 * unit,
                unit == 2 * pow2(1073),
                unit > 0,
        ;
        lemma_from_int_exact(whole);
        lemma_powi_of_two(whole);
        let scale = static_powi_spec(constant(TWO_BITS), whole);
        crate::float::bounds::lemma_power_pattern((whole + 1074) as nat);
        lemma_pow2_monotone((whole + 1074) as nat, 1587);
        lemma_pow2_monotone(561, (whole + 1074) as nat);
        assert(scale == power((whole + 1074) as nat));
        assert(scale.within(1587));
        assert(scale.reaches(561));
        // The series is a number from a quarter to 2^19.
        x.lemma_within_wider(1082, 1083);
        lemma_exp_remainder(x);
        let series = exp_series(exp_remainder(x), 19);
        lemma_exp_series_bounds(exp_remainder(x), 19);
        lemma_low_pattern(19);
        if low_pattern(19) < series.pattern() {
            lemma_pattern_value_increasing(low_pattern(19), series.pattern());
        }
        lemma_pow2_pos(1054);
        assert(series.reaches(1072));
        scale.lemma_mul_within(series, 1587, 1093);
        scale.lemma_mul_reaches(series, 561, 1072);
        lemma_mul_sign(scale, series);
        scale.mul_spec(series).lemma_within_finite(1606);
        scale.mul_spec(series).lemma_reaches_nonzero(559);
    }
}

} // verus!
