//! Which results are numbers.

use vstd::prelude::*;
use vstd::arithmetic::power2::{pow2, lemma2_to64, lemma_pow2_adds};
use crate::float::pattern::{
    HIDDEN_BIT,
    pattern_significand,
    lemma_pattern_value_increasing,
    lemma_pattern_value_start,
};
use crate::float::constants::{
    constant,
    ZERO_BITS,
    ONE_BITS,
    NEG_ONE_BITS,
    TWO_BITS,
    lemma_constant_magnitudes,
    HALF_PI_BITS,
    NEG_HALF_PI_BITS,
    QUARTER_PI_BITS,
    NEG_QUARTER_PI_BITS,
    NEAR_ONE_BITS,
    NEG_NEAR_ONE_BITS,
    TINY_BITS,
};
use crate::float::signs::{lemma_mul_sign, lemma_mul_number, lemma_add_same_sign};
use crate::float::bounds::{lemma_from_int_reaches, lemma_from_int_within};
use crate::float::binary64::Binary64;
use crate::laws::domain::lemma_scaled_power_nan;
use crate::laws::reduction::{
    TURN_LIMIT,
    lemma_angle_range,
    lemma_reciprocal_within_one,
    lemma_shifted_within_near_one,
};
use crate::function_approximations::{
    factorial,
    lemma_factorials,
    scaled_power,
    arctan_series,
    arctan_near,
    arctan_approx_spec,
    sine_angle,
    sine_term,
    sine_series,
    sin_approx_spec,
    cosine_angle,
    cosine_term,
    cosine_series,
    cos_approx_spec,
    tan_approx_spec,
    power_by_squaring,
    static_powi_spec,
    hyperbolic_factor,
    hyperbolic_term,
    hyperbolic_series,
    sinh_approx_spec,
    cosh_approx_spec,
};

verus! {

/// The factor of a hyperbolic series is a nonnegative number. It is within
/// one where the square of `x` is, and reaches 2^-12 where the square
/// reaches one.
pub proof fn lemma_hyperbolic_factor(x: Binary64, n: int)
    requires
        !x.is_nan(),
        1 <= n <= 60,
    ensures
        hyperbolic_factor(x, n).is_nonnegative(),
        x.mul_spec(x).within(1074) ==> hyperbolic_factor(x, n).within(1074),
        x.mul_spec(x).reaches(1074) ==> hyperbolic_factor(x, n).reaches(1062),
{
    let square = x.mul_spec(x);
    let low = Binary64::from_int_spec(n);
    let high = Binary64::from_int_spec(n + 1);
    let both = low.mul_spec(high);
    lemma2_to64();
    lemma_mul_number(x, x);
    lemma_mul_sign(x, x);
    lemma_from_int_reaches(n);
    lemma_from_int_reaches(n + 1);
    lemma_from_int_within(n, 6);
    lemma_from_int_within(n + 1, 6);
    low.lemma_mul_within(high, 1080, 1080);
    low.lemma_mul_reaches(high, 1074, 1074);
    lemma_mul_sign(low, high);
    both.lemma_within_finite(1086);
    both.lemma_reaches_nonzero(1074);
    square.lemma_div_nonnegative(both);
    if square.within(1074) {
        square.lemma_div_within(both, 1074, 1074);
    }
    if square.reaches(1074) {
        square.lemma_div_reaches(both, 1074, 1086);
    }
}

/// The terms of a hyperbolic series are numbers with the sign of the first.
/// Where the square of `x` is within one they are no larger than the first;
/// where it reaches one, they lose at most twelve binary digits each.
pub proof fn lemma_hyperbolic_term(first: Binary64, x: Binary64, start: int, i: nat)
    requires
        !x.is_nan(),
        !first.is_nan(),
        -1 <= start <= 0,
        i <= 29,
        (x.mul_spec(x).within(1074) && first.is_finite()) || (x.mul_spec(x).reaches(1074)
            && first.reaches(1073)),
    ensures
        !hyperbolic_term(first, x, start, i).is_nan(),
        hyperbolic_term(first, x, start, i).is_negative() == first.is_negative(),
        (x.mul_spec(x).within(1074) && first.is_finite()) ==> hyperbolic_term(
            first,
            x,
            start,
            i,
        ).no_larger_than(first),
        !(x.mul_spec(x).within(1074) && first.is_finite()) ==> hyperbolic_term(
            first,
            x,
            start,
            i,
        ).reaches((1073 - 12 * i) as nat),
    decreases i,
{
    if i > 0 {
        let before = hyperbolic_term(first, x, start, (i - 1) as nat);
        let factor = hyperbolic_factor(x, 2 * i + start);
        lemma_hyperbolic_term(first, x, start, (i - 1) as nat);
        lemma_hyperbolic_factor(x, 2 * i + start);
        lemma_mul_sign(before, factor);
        if x.mul_spec(x).within(1074) && first.is_finite() {
            before.lemma_mul_no_larger(factor, first);
        } else {
            before.lemma_mul_reaches(factor, (1073 - 12 * (i - 1)) as nat, 1062);
        }
    }
}

/// The sums of a hyperbolic series are numbers with the sign of the first term.
pub proof fn lemma_hyperbolic_series(first: Binary64, x: Binary64, start: int, i: nat)
    requires
        !x.is_nan(),
        !first.is_nan(),
        -1 <= start <= 0,
        i <= 29,
        (x.mul_spec(x).within(1074) && first.is_finite()) || (x.mul_spec(x).reaches(1074)
            && first.reaches(1073)),
    ensures
        !hyperbolic_series(first, x, start, i).is_nan(),
        hyperbolic_series(first, x, start, i).is_negative() == first.is_negative(),
    decreases i,
{
    if i > 0 {
        lemma_hyperbolic_series(first, x, start, (i - 1) as nat);
        lemma_hyperbolic_term(first, x, start, i);
        lemma_add_same_sign(
            hyperbolic_series(first, x, start, (i - 1) as nat),
            hyperbolic_term(first, x, start, i),
        );
    }
}

/// A hyperbolic series at not-a-number is not a number, from the second term on.
pub proof fn lemma_hyperbolic_series_nan(first: Binary64, x: Binary64, start: int, i: nat)
    requires
        x.is_nan(),
        i >= 1,
    ensures
        hyperbolic_term(first, x, start, i).is_nan(),
        hyperbolic_series(first, x, start, i).is_nan(),
    decreases i,
{
    if i > 1 {
        lemma_hyperbolic_series_nan(first, x, start, (i - 1) as nat);
    }
}

/// A number whose square reaches one reaches a half.
pub proof fn lemma_square_root_reaches(x: Binary64)
    requires
        !x.is_nan(),
        x.mul_spec(x).reaches(1074),
        !x.mul_spec(x).within(1074),
    ensures
        x.reaches(1073),
{
    if x.within(1073) {
        x.lemma_mul_within(x, 1073, 1073);
        x.mul_spec(x).lemma_within_wider(1072, 1074);
    }
}

/// The hyperbolic sine is a number for every number, infinities included,
/// and has the sign of its argument.
pub proof fn lemma_sinh_nan(x: Binary64)
    ensures
        sinh_approx_spec(x).is_nan() <==> x.is_nan(),
        !x.is_nan() ==> sinh_approx_spec(x).is_negative() == x.is_negative(),
{
    if x.is_nan() {
        lemma_hyperbolic_series_nan(x, x, 0, 29);
    } else {
        lemma_mul_number(x, x);
        if x.mul_spec(x).within(1074) {
            if x.is_infinite() {
                crate::float::bounds::lemma_power_pattern(2098);
                vstd::arithmetic::power2::lemma_pow2_strictly_increases(1074, 2098);
            }
        } else {
            lemma_square_root_reaches(x);
        }
        lemma_hyperbolic_series(x, x, 0, 29);
    }
}

/// The hyperbolic cosine is a number for every number, infinities included,
/// and is not negative.
pub proof fn lemma_cosh_nan(x: Binary64)
    ensures
        cosh_approx_spec(x).is_nan() <==> x.is_nan(),
        !x.is_nan() ==> !cosh_approx_spec(x).is_negative(),
{
    let one = constant(ONE_BITS);
    lemma_constant_magnitudes();
    if x.is_nan() {
        lemma_hyperbolic_series_nan(one, x, -1, 29);
    } else {
        lemma_mul_number(x, x);
        lemma_hyperbolic_series(one, x, -1, 29);
    }
}

/// The powers of a value within two to the `e`, by a step within two to the
/// `f` of one or more, grow by the step's digits each.
pub proof fn lemma_scaled_power_grows(z: Binary64, step: Binary64, e: nat, f: nat, n: nat)
    requires
        z.within(e),
        step.within(f),
        1074 <= e,
        1074 <= f,
        e + n * (f - 1074) < 2098,
        f < 2098,
    ensures
        scaled_power(z, step, n).within((e + n * (f - 1074)) as nat),
    decreases n,
{
    if n > 0 {
        assert((n - 1) * (f - 1074) + (f - 1074) == n * (f - 1074)) by (nonlinear_arith);
        lemma_scaled_power_grows(z, step, e, f, (n - 1) as nat);
        scaled_power(z, step, (n - 1) as nat).lemma_mul_within(
            step,
            (e + (n - 1) * (f - 1074)) as nat,
            f,
        );
    }
}

/// The series of the arctangent at a value between minus one and one stays a
/// number that is no infinity.
pub proof fn lemma_arctan_series_within(y: Binary64, i: nat)
    requires
        y.no_larger_than(constant(ONE_BITS)),
        i <= 29,
    ensures
        arctan_series(y, i).within(1074 + i),
    decreases i,
{
    lemma_constant_magnitudes();
    y.lemma_no_larger_within(constant(ONE_BITS), 1074);
    if i > 0 {
        let step = y.mul_spec(y).neg_spec();
        let term = scaled_power(y, step, i);
        let den = Binary64::from_int_spec(2 * i as int + 1);
        y.lemma_mul_within(y, 1074, 1074);
        lemma_scaled_power_grows(y, step, 1074, 1074, i);
        lemma_from_int_reaches(2 * i as int + 1);
        term.lemma_div_within(den, 1074, 1074);
        lemma_arctan_series_within(y, (i - 1) as nat);
        term.div_spec(den).lemma_within_wider(1074, (1074 + i - 1) as nat);
        arctan_series(y, (i - 1) as nat).lemma_add_within(
            term.div_spec(den),
            (1074 + i - 1) as nat,
        );
    }
}

/// The arctangent between minus one and one is a number that is no infinity.
pub proof fn lemma_arctan_near_within(x: Binary64)
    requires
        x.no_larger_than(constant(ONE_BITS)),
    ensures
        arctan_near(x).within(1104),
{
    let one = constant(ONE_BITS);
    let near = constant(NEAR_ONE_BITS);
    lemma_constant_magnitudes();
    if near.lt_spec(x) || x.lt_spec(constant(NEG_NEAR_ONE_BITS)) {
        near.lemma_key_order(x);
        x.lemma_key_order(constant(NEG_NEAR_ONE_BITS));
        lemma_shifted_within_near_one(x);
        let y = if x.is_negative() {
            x.add_spec(one).div_spec(one.sub_spec(x))
        } else {
            x.sub_spec(one).div_spec(one.add_spec(x))
        };
        lemma_arctan_series_within(y, 29);
        let quarter = if x.is_negative() {
            constant(NEG_QUARTER_PI_BITS)
        } else {
            constant(QUARTER_PI_BITS)
        };
        quarter.lemma_no_larger_within(one, 1074);
        quarter.lemma_within_wider(1074, 1103);
        quarter.lemma_add_within(arctan_series(y, 29), 1103);
    } else {
        lemma_arctan_series_within(x, 29);
        arctan_series(x, 29).lemma_within_wider(1103, 1104);
    }
}

/// The arctangent is a number for every number, infinities included, and
/// never an infinity.
pub proof fn lemma_arctan_nan(x: Binary64)
    ensures
        arctan_approx_spec(x).is_nan() <==> x.is_nan(),
        !x.is_nan() ==> arctan_approx_spec(x).is_finite(),
{
    let one = constant(ONE_BITS);
    lemma_constant_magnitudes();
    if x.is_nan() {
        lemma_scaled_power_nan(x, x.mul_spec(x).neg_spec(), 29);
    } else if one.lt_spec(x) || x.lt_spec(constant(NEG_ONE_BITS)) {
        one.lemma_key_order(x);
        x.lemma_key_order(constant(NEG_ONE_BITS));
        lemma_reciprocal_within_one(x);
        lemma_arctan_near_within(one.div_spec(x));
        let half_pi = if x.is_negative() {
            constant(NEG_HALF_PI_BITS)
        } else {
            constant(HALF_PI_BITS)
        };
        half_pi.lemma_no_larger_within(constant(TWO_BITS), 1075);
        half_pi.lemma_within_wider(1075, 1104);
        half_pi.lemma_sub_within(arctan_near(one.div_spec(x)), 1104);
        half_pi.sub_spec(arctan_near(one.div_spec(x))).lemma_within_finite(1105);
    } else {
        one.lemma_key_order(x);
        x.lemma_key_order(constant(NEG_ONE_BITS));
        lemma_arctan_near_within(x);
        arctan_near(x).lemma_within_finite(1104);
    }
}

/// The sine series at an angle within two stays a number that is no infinity.
pub proof fn lemma_sine_series_within(a: Binary64, k: nat)
    requires
        a.within(1075),
        k <= 6,
    ensures
        sine_series(a, k).within(1076 + 2 * k),
    decreases k,
{
    if k > 0 {
        let square = a.mul_spec(a);
        let den = Binary64::from_int_spec(factorial(2 * k + 1) as int);
        lemma_factorials();
        a.lemma_mul_within(a, 1075, 1075);
        lemma_scaled_power_grows(a, square, 1075, 1076, k);
        lemma_from_int_reaches(factorial(2 * k + 1) as int);
        scaled_power(a, square, k).lemma_div_within(den, 1075 + 2 * k, 1074);
        lemma_sine_series_within(a, (k - 1) as nat);
        sine_series(a, (k - 1) as nat).lemma_within_wider(1074 + 2 * k, 1075 + 2 * k);
        sine_series(a, (k - 1) as nat).lemma_add_within(sine_term(a, k), 1075 + 2 * k);
        sine_series(a, (k - 1) as nat).lemma_sub_within(sine_term(a, k), 1075 + 2 * k);
    } else {
        a.lemma_within_wider(1075, 1076);
    }
}

/// The cosine series at an angle within two stays a number that is no infinity.
pub proof fn lemma_cosine_series_within(a: Binary64, k: nat)
    requires
        a.within(1075),
        k <= 7,
    ensures
        cosine_series(a, k).within(1075 + 2 * k),
    decreases k,
{
    lemma_constant_magnitudes();
    if k > 0 {
        let square = a.mul_spec(a);
        let den = Binary64::from_int_spec(factorial(2 * k) as int);
        lemma_factorials();
        a.lemma_mul_within(a, 1075, 1075);
        lemma_scaled_power_grows(square, square, 1076, 1076, (k - 1) as nat);
        lemma_from_int_reaches(factorial(2 * k) as int);
        scaled_power(square, square, (k - 1) as nat).lemma_div_within(
            den,
            (1074 + 2 * k) as nat,
            1074,
        );
        lemma_cosine_series_within(a, (k - 1) as nat);
        cosine_series(a, (k - 1) as nat).lemma_within_wider(
            (1073 + 2 * k) as nat,
            (1074 + 2 * k) as nat,
        );
        cosine_series(a, (k - 1) as nat).lemma_add_within(
            cosine_term(a, k),
            (1074 + 2 * k) as nat,
        );
        cosine_series(a, (k - 1) as nat).lemma_sub_within(
            cosine_term(a, k),
            (1074 + 2 * k) as nat,
        );
    } else {
        constant(ONE_BITS).lemma_within_wider(1074, 1075);
    }
}

/// The sine and the cosine of every number below 2^55 in magnitude are
/// numbers and no infinities.
pub proof fn lemma_sin_cos_finite(x: Binary64)
    requires
        !x.is_nan(),
        x.pattern() < TURN_LIMIT,
    ensures
        sin_approx_spec(x).within(1088),
        cos_approx_spec(x).within(1089),
        sin_approx_spec(x).is_finite(),
        cos_approx_spec(x).is_finite(),
{
    let two = constant(TWO_BITS);
    let half_pi = constant(HALF_PI_BITS);
    lemma_constant_magnitudes();
    lemma_angle_range(x);
    half_pi.lemma_no_larger_within(two, 1075);
    let angle = sine_angle(x);
    angle.lemma_no_larger_within(half_pi, 1075);
    lemma_sine_series_within(angle, 6);
    lemma_cosine_series_within(angle, 7);
    let sign = cosine_angle(x).1;
    sign.lemma_mul_within(cosine_series(angle, 7), 1074, 1089);
    sin_approx_spec(x).lemma_within_finite(1088);
    cos_approx_spec(x).lemma_within_finite(1089);
}

/// The tangent of every number below 2^55 in magnitude is a number and no
/// infinity: the quotient is taken only by a cosine of 1e-12 or more.
pub proof fn lemma_tan_finite(x: Binary64)
    requires
        !x.is_nan(),
        x.pattern() < TURN_LIMIT,
    ensures
        tan_approx_spec(x).is_finite(),
{
    let cos_val = cos_approx_spec(x);
    let tiny = constant(TINY_BITS);
    lemma_sin_cos_finite(x);
    lemma_pattern_value_start();
    if !cos_val.abs_spec().lt_spec(tiny) {
        cos_val.abs_spec().lemma_key_order(tiny);
        cos_val.lemma_key_order(constant(ZERO_BITS));
        if tiny.pattern() < cos_val.pattern() {
            lemma_pattern_value_increasing(tiny.pattern(), cos_val.pattern());
        }
        lemma_pow2_adds(52, 982);
        crate::float::pack::lemma_pow2_128();
        assert(pattern_significand(TINY_BITS) * pow2(982) >= HIDDEN_BIT * pow2(982))
            by (nonlinear_arith)
            requires
                pattern_significand(TINY_BITS) >= HIDDEN_BIT,
        ;
        sin_approx_spec(x).lemma_div_within(cos_val, 1088, 1034);
        sin_approx_spec(x).div_spec(cos_val).lemma_within_finite(1128);
    }
}

/// Powers by squaring of a base within one, times a number within one, are
/// within one.
pub proof fn lemma_power_within(base: Binary64, e: nat, acc: Binary64)
    requires
        base.within(1074),
        acc.within(1074),
    ensures
        power_by_squaring(base, e, acc).within(1074),
    decreases e,
{
    if e > 0 {
        base.lemma_mul_within(base, 1074, 1074);
        acc.lemma_mul_within(base, 1074, 1074);
        lemma_power_within(
            base.mul_spec(base),
            e / 2,
            if e % 2 == 1 {
                acc.mul_spec(base)
            } else {
                acc
            },
        );
    }
}

/// Powers by squaring of a base that reaches one, times a number that
/// reaches one, reach one.
pub proof fn lemma_power_reaches(base: Binary64, e: nat, acc: Binary64)
    requires
        base.reaches(1074),
        acc.reaches(1074),
    ensures
        power_by_squaring(base, e, acc).reaches(1074),
    decreases e,
{
    if e > 0 {
        base.lemma_mul_reaches(base, 1074, 1074);
        acc.lemma_mul_reaches(base, 1074, 1074);
        lemma_power_reaches(
            base.mul_spec(base),
            e / 2,
            if e % 2 == 1 {
                acc.mul_spec(base)
            } else {
                acc
            },
        );
    }
}

/// Powers by squaring keep what is not a number: in the base for an
/// exponent above zero, in the factor for every exponent.
pub proof fn lemma_power_nan(base: Binary64, e: nat, acc: Binary64)
    requires
        acc.is_nan() || (base.is_nan() && e > 0),
    ensures
        power_by_squaring(base, e, acc).is_nan(),
    decreases e,
{
    if e > 0 {
        lemma_power_nan(
            base.mul_spec(base),
            e / 2,
            if e % 2 == 1 {
                acc.mul_spec(base)
            } else {
                acc
            },
        );
    }
}

/// An integer power has no domain errors: it is a number for every base
/// that is a number, and for every base at the exponent zero.
pub proof fn lemma_powi_nan(base: Binary64, exponent: int)
    ensures
        static_powi_spec(base, exponent).is_nan() <==> (base.is_nan() && exponent != 0),
{
    let one = constant(ONE_BITS);
    lemma_constant_magnitudes();
    lemma_pattern_value_start();
    if exponent != 0 {
        let e = (if exponent < 0 {
            -exponent
        } else {
            exponent
        }) as nat;
        let power = power_by_squaring(base, e, one);
        if base.is_nan() {
            lemma_power_nan(base, e, one);
        } else {
            if base.within(1074) {
                lemma_power_within(base, e, one);
            } else {
                lemma_power_reaches(base, e, one);
            }
            if !power.is_zero() {
                power.lemma_magnitude_positive();
                crate::float::signs::lemma_round_in_range(
                    one.magnitude() * pow2(1074),
                    power.magnitude(),
                );
            }
        }
    }
}

} // verus!
