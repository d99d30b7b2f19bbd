//! Sine, cosine, tangent, exponential, logarithm, square root, arctangent and
//! the hyperbolic sine and cosine, each by a fixed number of binary64
//! operations. Every function states the value it returns as the same
//! operations over the rounding of `crate::float::rounding`.

use vstd::prelude::*;
use crate::float::pattern::SIGN_MASK;
use crate::float::binary64::Binary64;
use crate::float::constants::{
    constant,
    ZERO_BITS,
    HALF_BITS,
    ONE_BITS,
    NEG_ONE_BITS,
    THREE_HALVES_BITS,
    TWO_BITS,
    PI_BITS,
    NEG_PI_BITS,
    HALF_PI_BITS,
    NEG_HALF_PI_BITS,
    TWO_PI_BITS,
    QUARTER_PI_BITS,
    NEG_QUARTER_PI_BITS,
    LN_2_BITS,
    NEAR_ONE_BITS,
    NEG_NEAR_ONE_BITS,
    TINY_BITS,
    HUGE_BITS,
    NEG_HUGE_BITS,
};
use crate::float::convert::clamp;
use crate::float::signs::lemma_mul_sign;
use crate::laws::domain::{lemma_ln_nan, lemma_ln_finite, lemma_sqrt_nan};
use crate::laws::reduction::{TURN_LIMIT, lemma_angle_range};
use crate::laws::exponential::lemma_exp_positive;
use crate::laws::totality::{
    lemma_sin_cos_finite,
    lemma_tan_finite,
    lemma_arctan_nan,
    lemma_sinh_nan,
    lemma_cosh_nan,
    lemma_powi_nan,
};

verus! {

/// The product of the first `n` positive integers.
pub open spec fn factorial(n: nat) -> nat
    decreases n,
{
    if n == 0 {
        1
    } else {
        n * factorial((n - 1) as nat)
    }
}

/// The factorials that the series divide by.
pub proof fn lemma_factorials()
    ensures
        factorial(0) == 1,
        factorial(1) == 1,
        factorial(2) == 2,
        factorial(3) == 6,
        factorial(4) == 24,
        factorial(5) == 120,
        factorial(6) == 720,
        factorial(7) == 5040,
        factorial(8) == 40320,
        factorial(9) == 362880,
        factorial(10) == 3628800,
        factorial(11) == 39916800,
        factorial(12) == 479001600,
        factorial(13) == 6227020800,
        factorial(14) == 87178291200,
        factorial(15) == 1307674368000,
        factorial(16) == 20922789888000,
        factorial(17) == 355687428096000,
        factorial(18) == 6402373705728000,
        factorial(19) == 121645100408832000,
{
    reveal_with_fuel(factorial, 20);
}

/// `first` multiplied `n` times by `step`, one rounding after each product.
pub open spec fn scaled_power(first: Binary64, step: Binary64, n: nat) -> Binary64
    decreases n,
{
    if n == 0 {
        first
    } else {
        scaled_power(first, step, (n - 1) as nat).mul_spec(step)
    }
}

/// The angle less full turns, taken off one at a time while the angle is
/// above pi and taking one off still lowers it.
pub open spec fn wound_down(x: Binary64) -> Binary64
    decreases x.key() + SIGN_MASK,
{
    let next = x.sub_spec(constant(TWO_PI_BITS));
    if constant(PI_BITS).lt_spec(x) && next.lt_spec(x) {
        proof {
            next.lemma_key_order(x);
        }
        wound_down(next)
    } else {
        x
    }
}

/// The angle plus full turns, added one at a time while the angle is below
/// minus pi and adding one still raises it.
pub open spec fn wound_up(x: Binary64) -> Binary64
    decreases SIGN_MASK - x.key(),
{
    let next = x.add_spec(constant(TWO_PI_BITS));
    if x.lt_spec(constant(NEG_PI_BITS)) && x.lt_spec(next) {
        proof {
            x.lemma_key_order(next);
        }
        wound_up(next)
    } else {
        x
    }
}

/// The angle brought between minus pi and pi.
pub open spec fn within_turn(x: Binary64) -> Binary64 {
    wound_up(wound_down(x))
}

/// Brings an angle between minus pi and pi by whole turns. An angle so large
/// that a turn no longer changes it, an infinity or not-a-number is returned
/// as it is; every number below 2^55 in magnitude ends between minus pi and pi.
pub fn reduce_to_turn(x: Binary64) -> (r: Binary64)
    ensures
        r == within_turn(x),
        (!x.is_nan() && x.pattern() < TURN_LIMIT) ==> r.no_larger_than(constant(PI_BITS)),
{
    proof {
        if !x.is_nan() && x.pattern() < TURN_LIMIT {
            lemma_angle_range(x);
        }
    }
    let pi = Binary64::from_bits(PI_BITS);
    let neg_pi = Binary64::from_bits(NEG_PI_BITS);
    let two_pi = Binary64::from_bits(TWO_PI_BITS);
    let mut cur = x;
    let mut next = cur.sub(two_pi);
    while pi.lt(cur) && next.lt(cur)
        invariant
            pi == constant(PI_BITS),
            two_pi == constant(TWO_PI_BITS),
            next == cur.sub_spec(two_pi),
            wound_down(cur) == wound_down(x),
        decreases cur.key() + SIGN_MASK,
    {
        proof {
            next.lemma_key_order(cur);
        }
        cur = next;
        next = cur.sub(two_pi);
    }
    let ghost lowered = cur;
    next = cur.add(two_pi);
    while cur.lt(neg_pi) && cur.lt(next)
        invariant
            neg_pi == constant(NEG_PI_BITS),
            two_pi == constant(TWO_PI_BITS),
            next == cur.add_spec(two_pi),
            wound_up(cur) == wound_up(lowered),
        decreases SIGN_MASK - cur.key(),
    {
        proof {
            cur.lemma_key_order(next);
        }
        cur = next;
        next = cur.add(two_pi);
    }
    cur
}

/// The angle folded into the quarter turns around zero, where the sine keeps
/// its value: above half of pi it is mirrored at pi, below minus half of pi at
/// minus pi.
pub open spec fn sine_angle(x: Binary64) -> Binary64 {
    let w = within_turn(x);
    if constant(HALF_PI_BITS).lt_spec(w) {
        constant(PI_BITS).sub_spec(w)
    } else if w.lt_spec(constant(NEG_HALF_PI_BITS)) {
        constant(NEG_PI_BITS).sub_spec(w)
    } else {
        w
    }
}

/// Folds an angle into the range from minus half of pi to half of pi without
/// changing its sine. Every number below 2^55 in magnitude ends in that range.
pub fn reduce_angle_for_sine(x: Binary64) -> (r: Binary64)
    ensures
        r == sine_angle(x),
        (!x.is_nan() && x.pattern() < TURN_LIMIT) ==> r.no_larger_than(constant(HALF_PI_BITS)),
{
    proof {
        if !x.is_nan() && x.pattern() < TURN_LIMIT {
            lemma_angle_range(x);
        }
    }
    let w = reduce_to_turn(x);
    if Binary64::from_bits(HALF_PI_BITS).lt(w) {
        Binary64::from_bits(PI_BITS).sub(w)
    } else if w.lt(Binary64::from_bits(NEG_HALF_PI_BITS)) {
        Binary64::from_bits(NEG_PI_BITS).sub(w)
    } else {
        w
    }
}

/// The angle folded as for the sine, and the sign that the cosine takes in the
/// folding: minus one where the angle was mirrored, one where it was not.
pub open spec fn cosine_angle(x: Binary64) -> (Binary64, Binary64) {
    let w = within_turn(x);
    if constant(HALF_PI_BITS).lt_spec(w) {
        (constant(PI_BITS).sub_spec(w), constant(NEG_ONE_BITS))
    } else if w.lt_spec(constant(NEG_HALF_PI_BITS)) {
        (constant(NEG_PI_BITS).sub_spec(w), constant(NEG_ONE_BITS))
    } else {
        (w, constant(ONE_BITS))
    }
}

/// Folds an angle into the range from minus half of pi to half of pi and
/// gives the sign by which the cosine changes. Every number below 2^55 in
/// magnitude ends in that range.
pub fn reduce_angle_for_cos(x: Binary64) -> (r: (Binary64, Binary64))
    ensures
        r == cosine_angle(x),
        (!x.is_nan() && x.pattern() < TURN_LIMIT) ==> r.0.no_larger_than(
            constant(HALF_PI_BITS),
        ),
{
    proof {
        if !x.is_nan() && x.pattern() < TURN_LIMIT {
            lemma_angle_range(x);
        }
    }
    let w = reduce_to_turn(x);
    if Binary64::from_bits(HALF_PI_BITS).lt(w) {
        (Binary64::from_bits(PI_BITS).sub(w), Binary64::from_bits(NEG_ONE_BITS))
    } else if w.lt(Binary64::from_bits(NEG_HALF_PI_BITS)) {
        (Binary64::from_bits(NEG_PI_BITS).sub(w), Binary64::from_bits(NEG_ONE_BITS))
    } else {
        (w, Binary64::from_bits(ONE_BITS))
    }
}

/// The term of the sine series with the power `2k + 1`: the power over its
/// factorial.
pub open spec fn sine_term(x: Binary64, k: nat) -> Binary64 {
    scaled_power(x, x.mul_spec(x), k).div_spec(
        Binary64::from_int_spec(factorial(2 * k + 1) as int),
    )
}

/// The sine series up to the power `2k + 1`, the terms taken with alternating
/// sign, lowest power first.
pub open spec fn sine_series(x: Binary64, k: nat) -> Binary64
    decreases k,
{
    if k == 0 {
        x
    } else if k % 2 == 1 {
        sine_series(x, (k - 1) as nat).sub_spec(sine_term(x, k))
    } else {
        sine_series(x, (k - 1) as nat).add_spec(sine_term(x, k))
    }
}

/// What `sin_approx` returns: the series up to the 13th power at the folded angle.
pub open spec fn sin_approx_spec(x: Binary64) -> Binary64 {
    sine_series(sine_angle(x), 6)
}

/// The sine of `x`, by the series `x - x^3/3! + x^5/5! - ... + x^13/13!` at
/// the angle folded into the range from minus half of pi to half of pi. For
/// every number below 2^55 in magnitude the result is a number and no infinity.
pub fn sin_approx(x: Binary64) -> (r: Binary64)
    ensures
        r == sin_approx_spec(x),
        (!x.is_nan() && x.pattern() < TURN_LIMIT) ==> r.is_finite(),
{
    proof {
        if !x.is_nan() && x.pattern() < TURN_LIMIT {
            lemma_sin_cos_finite(x);
        }
    }
    let x = reduce_angle_for_sine(x);
    let x2 = x.mul(x);

    let x3 = x.mul(x2);
    let x5 = x3.mul(x2);
    let x7 = x5.mul(x2);
    let x9 = x7.mul(x2);
    let x11 = x9.mul(x2);
    let x13 = x11.mul(x2);

    let term1 = x;
    let term2 = x3.div(Binary64::from_i64(6));
    let term3 = x5.div(Binary64::from_i64(120));
    let term4 = x7.div(Binary64::from_i64(5040));
    let term5 = x9.div(Binary64::from_i64(362880));
    let term6 = x11.div(Binary64::from_i64(39916800));
    let term7 = x13.div(Binary64::from_i64(6227020800));

    proof {
        lemma_factorials();
        reveal_with_fuel(scaled_power, 7);
        reveal_with_fuel(sine_series, 7);
    }
    term1.sub(term2).add(term3).sub(term4).add(term5).sub(term6).add(term7)
}

/// The term of the cosine series with the power `2k`, for `k` of one or more.
pub open spec fn cosine_term(x: Binary64, k: nat) -> Binary64 {
    scaled_power(x.mul_spec(x), x.mul_spec(x), (k - 1) as nat).div_spec(
        Binary64::from_int_spec(factorial(2 * k) as int),
    )
}

/// The cosine series up to the power `2k`, the terms taken with alternating
/// sign, lowest power first.
pub open spec fn cosine_series(x: Binary64, k: nat) -> Binary64
    decreases k,
{
    if k == 0 {
        constant(ONE_BITS)
    } else if k % 2 == 1 {
        cosine_series(x, (k - 1) as nat).sub_spec(cosine_term(x, k))
    } else {
        cosine_series(x, (k - 1) as nat).add_spec(cosine_term(x, k))
    }
}

/// What `cos_approx` returns: the series up to the 14th power at the folded
/// angle, times the sign of the folding.
pub open spec fn cos_approx_spec(x: Binary64) -> Binary64 {
    let (angle, sign) = cosine_angle(x);
    sign.mul_spec(cosine_series(angle, 7))
}

/// The cosine of `x`, by the series `1 - x^2/2! + x^4/4! - ... - x^14/14!` at
/// the angle folded into the range from minus half of pi to half of pi, with
/// the sign that the folding asks for. For every number below 2^55 in
/// magnitude the result is a number and no infinity.
pub fn cos_approx(x: Binary64) -> (r: Binary64)
    ensures
        r == cos_approx_spec(x),
        (!x.is_nan() && x.pattern() < TURN_LIMIT) ==> r.is_finite(),
{
    proof {
        if !x.is_nan() && x.pattern() < TURN_LIMIT {
            lemma_sin_cos_finite(x);
        }
    }
    let (x, sign) = reduce_angle_for_cos(x);
    let x2 = x.mul(x);

    let x4 = x2.mul(x2);
    let x6 = x4.mul(x2);
    let x8 = x6.mul(x2);
    let x10 = x8.mul(x2);
    let x12 = x10.mul(x2);
    let x14 = x12.mul(x2);

    let term0 = Binary64::from_bits(ONE_BITS);
    let term1 = x2.div(Binary64::from_i64(2));
    let term2 = x4.div(Binary64::from_i64(24));
    let term3 = x6.div(Binary64::from_i64(720));
    let term4 = x8.div(Binary64::from_i64(40320));
    let term5 = x10.div(Binary64::from_i64(3628800));
    let term6 = x12.div(Binary64::from_i64(479001600));
    let term7 = x14.div(Binary64::from_i64(87178291200));

    proof {
        lemma_factorials();
        reveal_with_fuel(scaled_power, 7);
        reveal_with_fuel(cosine_series, 8);
    }
    sign.mul(
        term0.sub(term1).add(term2).sub(term3).add(term4).sub(term5).add(term6).sub(term7),
    )
}

/// Exponentiation by squaring: `acc` times `base` to the `e`, where the base
/// is squared once for each binary digit of `e` and multiplied in at each digit
/// that is set, lowest digit first.
pub open spec fn power_by_squaring(base: Binary64, e: nat, acc: Binary64) -> Binary64
    decreases e,
{
    if e == 0 {
        acc
    } else {
        power_by_squaring(
            base.mul_spec(base),
            e / 2,
            if e % 2 == 1 {
                acc.mul_spec(base)
            } else {
                acc
            },
        )
    }
}

/// What `static_powi` returns: one for the exponent zero, the power by
/// squaring for a positive exponent, and one over the power to the opposite
/// exponent for a negative one.
pub open spec fn static_powi_spec(base: Binary64, exponent: int) -> Binary64 {
    if exponent == 0 {
        constant(ONE_BITS)
    } else if exponent < 0 {
        constant(ONE_BITS).div_spec(
            power_by_squaring(base, (-exponent) as nat, constant(ONE_BITS)),
        )
    } else {
        power_by_squaring(base, exponent as nat, constant(ONE_BITS))
    }
}

/// `base` to the power of `exponent`, by squaring. The exponent zero gives one
/// for every base, and every other exponent a number for every base that is
/// a number.
pub fn static_powi(base: Binary64, exponent: i32) -> (r: Binary64)
    ensures
        r == static_powi_spec(base, exponent as int),
        exponent == 0 ==> r == constant(ONE_BITS),
        r.is_nan() <==> (base.is_nan() && exponent != 0),
{
    proof {
        lemma_powi_nan(base, exponent as int);
    }
    let one = Binary64::from_bits(ONE_BITS);
    if exponent == 0 {
        return one;
    }
    let mut base = base;
    let mut result = one;
    let mut positive_exp: u32 = if exponent < 0 {
        (-(exponent as i64)) as u32
    } else {
        exponent as u32
    };
    let ghost start = base;
    let ghost magnitude = positive_exp;
    while positive_exp > 0
        invariant
            power_by_squaring(base, positive_exp as nat, result) == power_by_squaring(
                start,
                magnitude as nat,
                constant(ONE_BITS),
            ),
        decreases positive_exp,
    {
        if positive_exp % 2 == 1 {
            result = result.mul(base);
        }
        base = base.mul(base);
        positive_exp = positive_exp / 2;
    }
    if exponent < 0 {
        one.div(result)
    } else {
        result
    }
}

/// The whole number that rounding by a half gives: a half is added to a
/// value that is zero or more and taken from any other, each with its own
/// rounding, and the fraction is dropped. Outside the 64-bit integers the
/// nearest of them is taken; not-a-number gives zero.
pub open spec fn round_const_whole(x: Binary64) -> int {
    let moved = if constant(ZERO_BITS).le_spec(x) {
        x.add_spec(constant(HALF_BITS))
    } else {
        x.sub_spec(constant(HALF_BITS))
    };
    clamp(moved.truncation(), i64::MIN as int, i64::MAX as int)
}

/// What `round_const` returns: the whole number that rounding by a half
/// gives, as a binary64 value.
pub open spec fn round_const_spec(x: Binary64) -> Binary64 {
    Binary64::from_int_spec(round_const_whole(x))
}

/// Rounds to a whole number by adding a half away from zero and dropping
/// the fraction.
pub fn round_const(x: Binary64) -> (r: Binary64)
    ensures
        r == round_const_spec(x),
{
    let half = Binary64::from_bits(HALF_BITS);
    if x.ge(Binary64::from_bits(ZERO_BITS)) {
        Binary64::from_i64(x.add(half).to_i64())
    } else {
        Binary64::from_i64(x.sub(half).to_i64())
    }
}

/// The term of the exponential series with the power `k`, for `k` of two or
/// more: the power over its factorial.
pub open spec fn exp_term(r: Binary64, k: nat) -> Binary64 {
    scaled_power(r, r, (k - 1) as nat).div_spec(Binary64::from_int_spec(factorial(k) as int))
}

/// The exponential series up to the power `k`, lowest power first.
pub open spec fn exp_series(r: Binary64, k: nat) -> Binary64
    decreases k,
{
    if k == 0 {
        constant(ONE_BITS)
    } else if k == 1 {
        exp_series(r, 0).add_spec(r)
    } else {
        exp_series(r, (k - 1) as nat).add_spec(exp_term(r, k))
    }
}

/// The number of times the logarithm of two goes into `x`, rounded.
pub open spec fn exp_scale(x: Binary64) -> Binary64 {
    round_const_spec(x.div_spec(constant(LN_2_BITS)))
}

/// What is left of `x` when the multiples of the logarithm of two are taken off.
pub open spec fn exp_remainder(x: Binary64) -> Binary64 {
    x.sub_spec(exp_scale(x).mul_spec(constant(LN_2_BITS)))
}

/// What `exp_approx` returns: one at zero; elsewhere two to the power of the
/// scale, times the series up to the 19th power at the remainder.
pub open spec fn exp_approx_spec(x: Binary64) -> Binary64 {
    if x.eq_spec(constant(ZERO_BITS)) {
        constant(ONE_BITS)
    } else {
        static_powi_spec(
            constant(TWO_BITS),
            clamp(exp_scale(x).truncation(), i32::MIN as int, i32::MAX as int),
        ).mul_spec(exp_series(exp_remainder(x), 19))
    }
}

/// The exponential of `x`: with `x = n * ln 2 + r` and `n` whole, two to the
/// `n` times the series `1 + r + r^2/2! + ... + r^19/19!`. For every number
/// up to 256 in magnitude the result is a number above zero and no infinity.
pub fn exp_approx(x: Binary64) -> (r: Binary64)
    ensures
        r == exp_approx_spec(x),
        x.eq_spec(constant(ZERO_BITS)) ==> r == constant(ONE_BITS),
        x.within(1082) ==> r.is_finite() && !r.is_negative() && !r.is_zero(),
{
    proof {
        if x.within(1082) {
            lemma_exp_positive(x);
        }
    }
    let one = Binary64::from_bits(ONE_BITS);
    let ln_2 = Binary64::from_bits(LN_2_BITS);
    if x.eq(Binary64::from_bits(ZERO_BITS)) {
        return one;
    }
    let n_float = round_const(x.div(ln_2));
    let n: i32 = n_float.to_i32();
    let r = x.sub(n_float.mul(ln_2));

    proof {
        lemma_factorials();
        assert(scaled_power(r, r, 0) == r);
        assert(exp_series(r, 0) == one);
    }
    let sum1 = one.add(r);
    assert(sum1 == exp_series(r, 1));
    let r2 = r.mul(r);
    let sum2 = sum1.add(r2.div(Binary64::from_i64(2)));
    assert(sum2 == exp_series(r, 2));
    let r3 = r2.mul(r);
    let sum3 = sum2.add(r3.div(Binary64::from_i64(6)));
    assert(sum3 == exp_series(r, 3));
    let r4 = r3.mul(r);
    let sum4 = sum3.add(r4.div(Binary64::from_i64(24)));
    assert(sum4 == exp_series(r, 4));
    let r5 = r4.mul(r);
    let sum5 = sum4.add(r5.div(Binary64::from_i64(120)));
    assert(sum5 == exp_series(r, 5));
    let r6 = r5.mul(r);
    let sum6 = sum5.add(r6.div(Binary64::from_i64(720)));
    assert(sum6 == exp_series(r, 6));
    let r7 = r6.mul(r);
    let sum7 = sum6.add(r7.div(Binary64::from_i64(5040)));
    assert(sum7 == exp_series(r, 7));
    let r8 = r7.mul(r);
    let sum8 = sum7.add(r8.div(Binary64::from_i64(40320)));
    assert(sum8 == exp_series(r, 8));
    let r9 = r8.mul(r);
    let sum9 = sum8.add(r9.div(Binary64::from_i64(362880)));
    assert(sum9 == exp_series(r, 9));
    let r10 = r9.mul(r);
    let sum10 = sum9.add(r10.div(Binary64::from_i64(3628800)));
    assert(sum10 == exp_series(r, 10));
    let r11 = r10.mul(r);
    let sum11 = sum10.add(r11.div(Binary64::from_i64(39916800)));
    assert(sum11 == exp_series(r, 11));
    let r12 = r11.mul(r);
    let sum12 = sum11.add(r12.div(Binary64::from_i64(479001600)));
    assert(sum12 == exp_series(r, 12));
    let r13 = r12.mul(r);
    let sum13 = sum12.add(r13.div(Binary64::from_i64(6227020800)));
    assert(sum13 == exp_series(r, 13));
    let r14 = r13.mul(r);
    let sum14 = sum13.add(r14.div(Binary64::from_i64(87178291200)));
    assert(sum14 == exp_series(r, 14));
    let r15 = r14.mul(r);
    let sum15 = sum14.add(r15.div(Binary64::from_i64(1307674368000)));
    assert(sum15 == exp_series(r, 15));
    let r16 = r15.mul(r);
    let sum16 = sum15.add(r16.div(Binary64::from_i64(20922789888000)));
    assert(sum16 == exp_series(r, 16));
    let r17 = r16.mul(r);
    let sum17 = sum16.add(r17.div(Binary64::from_i64(355687428096000)));
    assert(sum17 == exp_series(r, 17));
    let r18 = r17.mul(r);
    let sum18 = sum17.add(r18.div(Binary64::from_i64(6402373705728000)));
    assert(sum18 == exp_series(r, 18));
    let r19 = r18.mul(r);
    let sum19 = sum18.add(r19.div(Binary64::from_i64(121645100408832000)));
    let taylor = sum19;

    static_powi(Binary64::from_bits(TWO_BITS), n).mul(taylor)
}

/// What `tan_approx` returns: the sine over the cosine; where the cosine is
/// within 1e-12 of zero, 1e12 for a sine above zero and -1e12 for any other.
pub open spec fn tan_approx_spec(x: Binary64) -> Binary64 {
    let cos_val = cos_approx_spec(x);
    if cos_val.abs_spec().lt_spec(constant(TINY_BITS)) {
        if constant(ZERO_BITS).lt_spec(sin_approx_spec(x)) {
            constant(HUGE_BITS)
        } else {
            constant(NEG_HUGE_BITS)
        }
    } else {
        sin_approx_spec(x).div_spec(cos_val)
    }
}

/// The tangent of `x` as sine over cosine, with a large finite value of the
/// sine's sign in place of the quotient where the cosine is all but zero. For
/// every number below 2^55 in magnitude the result is a number and no infinity.
pub fn tan_approx(x: Binary64) -> (r: Binary64)
    ensures
        r == tan_approx_spec(x),
        (!x.is_nan() && x.pattern() < TURN_LIMIT) ==> r.is_finite(),
{
    proof {
        if !x.is_nan() && x.pattern() < TURN_LIMIT {
            lemma_tan_finite(x);
        }
    }
    let cos_val = cos_approx(x);
    if cos_val.abs().lt(Binary64::from_bits(TINY_BITS)) {
        if sin_approx(x).gt(Binary64::from_bits(ZERO_BITS)) {
            return Binary64::from_bits(HUGE_BITS);
        } else {
            return Binary64::from_bits(NEG_HUGE_BITS);
        }
    }
    sin_approx(x).div(cos_val)
}

/// The value halved while it is above one and a half and halving still
/// lowers it, with the count of halvings added to `k`.
pub open spec fn halved(x: Binary64, k: int) -> (Binary64, int)
    decreases x.key() + SIGN_MASK,
{
    let next = x.mul_spec(constant(HALF_BITS));
    if constant(THREE_HALVES_BITS).lt_spec(x) && next.lt_spec(x) {
        proof {
            next.lemma_key_order(x);
        }
        halved(next, k + 1)
    } else {
        (x, k)
    }
}

/// The value doubled while it is below a half and doubling still raises it,
/// with the count of doublings taken from `k`.
pub open spec fn doubled(x: Binary64, k: int) -> (Binary64, int)
    decreases SIGN_MASK - x.key(),
{
    let next = x.mul_spec(constant(TWO_BITS));
    if x.lt_spec(constant(HALF_BITS)) && x.lt_spec(next) {
        proof {
            x.lemma_key_order(next);
        }
        doubled(next, k - 1)
    } else {
        (x, k)
    }
}

/// The first `n` terms of the series `z + z^3/3 + z^5/5 + ...`, added to zero
/// lowest power first.
pub open spec fn ln_series(z: Binary64, n: nat) -> Binary64
    decreases n,
{
    if n == 0 {
        constant(ZERO_BITS)
    } else {
        ln_series(z, (n - 1) as nat).add_spec(
            scaled_power(z, z.mul_spec(z), (n - 1) as nat).div_spec(
                Binary64::from_int_spec(2 * n - 1),
            ),
        )
    }
}

/// What `ln_approx` returns: not-a-number for not-a-number and for zero or
/// less. Elsewhere, with `x = m * 2^k` and `m` between a half and one and a
/// half, and `z = (m - 1) / (m + 1)`: twice the first 39 terms of the series
/// at `z`, plus `k` times the logarithm of two.
pub open spec fn ln_approx_spec(x: Binary64) -> Binary64 {
    if x.is_nan() || x.le_spec(constant(ZERO_BITS)) {
        Binary64::nan()
    } else {
        let (h, up) = halved(x, 0);
        let (m, k) = doubled(h, up);
        let z = m.sub_spec(constant(ONE_BITS)).div_spec(m.add_spec(constant(ONE_BITS)));
        constant(TWO_BITS).mul_spec(ln_series(z, 39)).add_spec(
            Binary64::from_int_spec(k).mul_spec(constant(LN_2_BITS)),
        )
    }
}

/// The natural logarithm of `number`. The result is a number, and no
/// infinity, for every number above zero that is no infinity, and not a
/// number for everything else.
pub fn ln_approx(number: Binary64) -> (r: Binary64)
    ensures
        r == ln_approx_spec(number),
        r.is_nan() <==> (number.le_spec(constant(ZERO_BITS)) || !number.is_finite()),
        !r.is_infinite(),
{
    proof {
        lemma_ln_nan(number);
        if number.is_finite() && constant(ZERO_BITS).lt_spec(number) {
            lemma_ln_finite(number);
        }
    }
    let zero = Binary64::from_bits(ZERO_BITS);
    let half = Binary64::from_bits(HALF_BITS);
    let one = Binary64::from_bits(ONE_BITS);
    let two = Binary64::from_bits(TWO_BITS);
    if number.not_a_number() || number.le(zero) {
        return Binary64::quiet_nan();
    }
    let mut x = number;
    let mut k: i64 = 0;
    let mut next = x.mul(half);
    proof {
        crate::float::pattern::lemma_pattern_value_start();
    }
    while Binary64::from_bits(THREE_HALVES_BITS).lt(x) && next.lt(x)
        invariant
            half == constant(HALF_BITS),
            next == x.mul_spec(half),
            halved(x, k as int) == halved(number, 0),
            !x.is_nan(),
            !x.is_negative(),
            0 <= k,
            k + x.key() <= number.key(),
        decreases x.key() + SIGN_MASK,
    {
        proof {
            next.lemma_key_order(x);
            lemma_mul_sign(x, half);
        }
        x = next;
        k = k + 1;
        next = x.mul(half);
    }
    let ghost lowered = x;
    let ghost up = k;
    next = x.mul(two);
    while x.lt(half) && x.lt(next)
        invariant
            half == constant(HALF_BITS),
            two == constant(TWO_BITS),
            next == x.mul_spec(two),
            doubled(x, k as int) == doubled(lowered, up as int),
            !x.is_nan(),
            !x.is_negative(),
            !lowered.is_negative(),
            0 <= up,
            up - k <= x.key() - lowered.key(),
            k <= up,
        decreases SIGN_MASK - x.key(),
    {
        proof {
            x.lemma_key_order(next);
            lemma_mul_sign(x, two);
        }
        x = next;
        k = k - 1;
        next = x.mul(two);
    }
    let z = x.sub(one).div(x.add(one));
    let z2 = z.mul(z);

    let mut sum = zero;
    let mut term = z;
    let mut i: i32 = 1;
    while i <= 39
        invariant
            1 <= i <= 40,
            z2 == z.mul_spec(z),
            sum == ln_series(z, (i - 1) as nat),
            term == scaled_power(z, z2, (i - 1) as nat),
        decreases 40 - i,
    {
        sum = sum.add(term.div(Binary64::from_i32(2 * i - 1)));
        term = term.mul(z2);
        i = i + 1;
    }
    two.mul(sum).add(Binary64::from_i64(k).mul(Binary64::from_bits(LN_2_BITS)))
}

/// The guess after `n` more steps of Newton's method for the square root of
/// `x`: each step is half of the guess plus `x` over the guess.
pub open spec fn newton(x: Binary64, guess: Binary64, n: nat) -> Binary64
    decreases n,
{
    if n == 0 {
        guess
    } else {
        newton(x, constant(HALF_BITS).mul_spec(guess.add_spec(x.div_spec(guess))), (n - 1) as nat)
    }
}

/// The guess that Newton's method starts from: `x` itself below one, half of
/// `x` elsewhere.
pub open spec fn first_guess(x: Binary64) -> Binary64 {
    if x.lt_spec(constant(ONE_BITS)) {
        x
    } else {
        x.div_spec(constant(TWO_BITS))
    }
}

/// What `sqrt_approx` returns: not-a-number below zero, zero at zero, and
/// elsewhere the guess after 20 steps of Newton's method.
pub open spec fn sqrt_approx_spec(x: Binary64) -> Binary64 {
    if x.lt_spec(constant(ZERO_BITS)) {
        Binary64::nan()
    } else if x.eq_spec(constant(ZERO_BITS)) {
        constant(ZERO_BITS)
    } else {
        newton(x, first_guess(x), 20)
    }
}

/// The square root of `x`. The result is a number for zero and for every
/// number above zero that is no infinity, and for nothing else.
pub fn sqrt_approx(x: Binary64) -> (r: Binary64)
    ensures
        r == sqrt_approx_spec(x),
        r.is_nan() <==> (x.lt_spec(constant(ZERO_BITS)) || !x.is_finite()),
        x.eq_spec(constant(ZERO_BITS)) ==> r == constant(ZERO_BITS),
{
    proof {
        lemma_sqrt_nan(x);
    }
    let zero = Binary64::from_bits(ZERO_BITS);
    let half = Binary64::from_bits(HALF_BITS);
    if x.lt(zero) {
        return Binary64::quiet_nan();
    }
    if x.eq(zero) {
        return zero;
    }
    let mut guess = if x.lt(Binary64::from_bits(ONE_BITS)) {
        x
    } else {
        x.div(Binary64::from_bits(TWO_BITS))
    };
    let mut i: u32 = 0;
    while i < 20
        invariant
            i <= 20,
            half == constant(HALF_BITS),
            newton(x, guess, (20 - i) as nat) == newton(x, first_guess(x), 20),
        decreases 20 - i,
    {
        guess = half.mul(guess.add(x.div(guess)));
        i = i + 1;
    }
    guess
}

/// The factor from one term of a hyperbolic series to the next: `x * x` over
/// the product of `n` and the whole number after it.
pub open spec fn hyperbolic_factor(x: Binary64, n: int) -> Binary64 {
    x.mul_spec(x).div_spec(
        Binary64::from_int_spec(n).mul_spec(Binary64::from_int_spec(n + 1)),
    )
}

/// The term `i` of a hyperbolic series that begins with `first`: the term
/// before it times the factor at `2i + start`. With `x` first and `start`
/// zero the terms are `x^(2i+1) / (2i+1)!`; with one first and `start` minus
/// one they are `x^(2i) / (2i)!`.
pub open spec fn hyperbolic_term(first: Binary64, x: Binary64, start: int, i: nat) -> Binary64
    decreases i,
{
    if i == 0 {
        first
    } else {
        hyperbolic_term(first, x, start, (i - 1) as nat).mul_spec(
            hyperbolic_factor(x, 2 * i + start),
        )
    }
}

/// The terms of a hyperbolic series up to the term `i`, added from the first.
pub open spec fn hyperbolic_series(first: Binary64, x: Binary64, start: int, i: nat) -> Binary64
    decreases i,
{
    if i == 0 {
        first
    } else {
        hyperbolic_series(first, x, start, (i - 1) as nat).add_spec(
            hyperbolic_term(first, x, start, i),
        )
    }
}

/// What `sinh_approx` returns: the series `x + x^3/3! + ...` up to the 59th power.
pub open spec fn sinh_approx_spec(x: Binary64) -> Binary64 {
    hyperbolic_series(x, x, 0, 29)
}

/// The hyperbolic sine of `x`, by the series `x + x^3/3! + x^5/5! + ...`: a
/// number for every number, with the sign of `x`.
pub fn sinh_approx(x: Binary64) -> (r: Binary64)
    ensures
        r == sinh_approx_spec(x),
        r.is_nan() <==> x.is_nan(),
        !x.is_nan() ==> r.is_negative() == x.is_negative(),
{
    proof {
        lemma_sinh_nan(x);
    }
    let mut term = x;
    let mut sum = x;
    let mut i: i32 = 1;
    while i < 30
        invariant
            1 <= i <= 30,
            term == hyperbolic_term(x, x, 0, (i - 1) as nat),
            sum == hyperbolic_series(x, x, 0, (i - 1) as nat),
        decreases 30 - i,
    {
        term = term.mul(
            x.mul(x).div(Binary64::from_i32(2 * i).mul(Binary64::from_i32(2 * i + 1))),
        );
        sum = sum.add(term);
        i = i + 1;
    }
    sum
}

/// What `cosh_approx` returns: the series `1 + x^2/2! + ...` up to the 58th power.
pub open spec fn cosh_approx_spec(x: Binary64) -> Binary64 {
    hyperbolic_series(constant(ONE_BITS), x, -1, 29)
}

/// The hyperbolic cosine of `x`, by the series `1 + x^2/2! + x^4/4! + ...`:
/// a number for every number, and never negative.
pub fn cosh_approx(x: Binary64) -> (r: Binary64)
    ensures
        r == cosh_approx_spec(x),
        r.is_nan() <==> x.is_nan(),
        !x.is_nan() ==> !r.is_negative(),
{
    proof {
        lemma_cosh_nan(x);
    }
    let mut term = Binary64::from_bits(ONE_BITS);
    let mut sum = Binary64::from_bits(ONE_BITS);
    let mut i: i32 = 1;
    while i < 30
        invariant
            1 <= i <= 30,
            term == hyperbolic_term(constant(ONE_BITS), x, -1, (i - 1) as nat),
            sum == hyperbolic_series(constant(ONE_BITS), x, -1, (i - 1) as nat),
        decreases 30 - i,
    {
        term = term.mul(
            x.mul(x).div(Binary64::from_i32(2 * i - 1).mul(Binary64::from_i32(2 * i))),
        );
        sum = sum.add(term);
        i = i + 1;
    }
    sum
}

/// The arctangent series up to the power `2i + 1`: the powers of `x` are
/// taken with alternating sign, each over its exponent, lowest power first.
pub open spec fn arctan_series(x: Binary64, i: nat) -> Binary64
    decreases i,
{
    if i == 0 {
        x
    } else {
        arctan_series(x, (i - 1) as nat).add_spec(
            scaled_power(x, x.mul_spec(x).neg_spec(), i).div_spec(
                Binary64::from_int_spec(2 * i as int + 1),
            ),
        )
    }
}

/// The arctangent between minus one and one: beyond 0.66 a quarter of pi
/// plus the series at `(x - 1) / (1 + x)`, below -0.66 minus a quarter of pi
/// plus the series at `(x + 1) / (1 - x)`, and the series at `x` between them.
pub open spec fn arctan_near(x: Binary64) -> Binary64 {
    let one = constant(ONE_BITS);
    if constant(NEAR_ONE_BITS).lt_spec(x) {
        constant(QUARTER_PI_BITS).add_spec(
            arctan_series(x.sub_spec(one).div_spec(one.add_spec(x)), 29),
        )
    } else if x.lt_spec(constant(NEG_NEAR_ONE_BITS)) {
        constant(NEG_QUARTER_PI_BITS).add_spec(
            arctan_series(x.add_spec(one).div_spec(one.sub_spec(x)), 29),
        )
    } else {
        arctan_series(x, 29)
    }
}

/// What `arctan_approx` returns: beyond one, half of pi less the arctangent
/// of the reciprocal; below minus one, minus half of pi less the arctangent of
/// the reciprocal; between them the arctangent as `arctan_near` gives it.
pub open spec fn arctan_approx_spec(x: Binary64) -> Binary64 {
    let one = constant(ONE_BITS);
    if one.lt_spec(x) {
        constant(HALF_PI_BITS).sub_spec(arctan_near(one.div_spec(x)))
    } else if x.lt_spec(constant(NEG_ONE_BITS)) {
        constant(NEG_HALF_PI_BITS).sub_spec(arctan_near(one.div_spec(x)))
    } else {
        arctan_near(x)
    }
}

/// The series `x - x^3/3 + x^5/5 - ...` up to the 59th power.
pub fn arctan_taylor(x: Binary64) -> (r: Binary64)
    ensures
        r == arctan_series(x, 29),
{
    let mut term = x;
    let mut sum = x;
    let x2 = x.mul(x);
    let mut i: i32 = 1;
    while i < 30
        invariant
            1 <= i <= 30,
            x2 == x.mul_spec(x),
            term == scaled_power(x, x2.neg_spec(), (i - 1) as nat),
            sum == arctan_series(x, (i - 1) as nat),
        decreases 30 - i,
    {
        term = term.mul(x2.neg());
        sum = sum.add(term.div(Binary64::from_i32(2 * i + 1)));
        i = i + 1;
    }
    sum
}

/// The arctangent of a value between minus one and one.
pub fn arctan_reduced(x: Binary64) -> (r: Binary64)
    ensures
        r == arctan_near(x),
{
    let one = Binary64::from_bits(ONE_BITS);
    if x.gt(Binary64::from_bits(NEAR_ONE_BITS)) {
        let y = x.sub(one).div(one.add(x));
        return Binary64::from_bits(QUARTER_PI_BITS).add(arctan_taylor(y));
    }
    if x.lt(Binary64::from_bits(NEG_NEAR_ONE_BITS)) {
        let y = x.add(one).div(one.sub(x));
        return Binary64::from_bits(NEG_QUARTER_PI_BITS).add(arctan_taylor(y));
    }
    arctan_taylor(x)
}

/// The arctangent of `x`: a number for every number, the infinities
/// included, and never an infinity.
pub fn arctan_approx(x: Binary64) -> (r: Binary64)
    ensures
        r == arctan_approx_spec(x),
        r.is_nan() <==> x.is_nan(),
        !x.is_nan() ==> r.is_finite(),
{
    proof {
        lemma_arctan_nan(x);
    }
    let one = Binary64::from_bits(ONE_BITS);
    if x.gt(one) {
        return Binary64::from_bits(HALF_PI_BITS).sub(arctan_reduced(one.div(x)));
    }
    if x.lt(Binary64::from_bits(NEG_ONE_BITS)) {
        return Binary64::from_bits(NEG_HALF_PI_BITS).sub(arctan_reduced(one.div(x)));
    }
    arctan_reduced(x)
}

} // verus!
