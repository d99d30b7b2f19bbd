//! Where the square root and the logarithm are numbers.

use vstd::prelude::*;
use vstd::arithmetic::power2::{pow2, lemma_pow2_pos, lemma_pow2_adds, lemma_pow2_unfold};
use crate::float::pattern::{
    SIGN_MASK,
    lemma_pattern_value_increasing,
    lemma_pattern_value_start,
};
use crate::float::binary64::Binary64;
use crate::float::constants::{
    LN_2_BITS,
    constant,
    ZERO_BITS,
    HALF_BITS,
    ONE_BITS,
    TWO_BITS,
    THREE_HALVES_BITS,
    lemma_constant_magnitudes,
};
use crate::float::exact::{lemma_half_exact, lemma_double_exact, lemma_pattern_doubled};
use crate::float::bounds::{lemma_add_reaches, lemma_from_int_reaches};
use crate::function_approximations::{
    newton,
    first_guess,
    sqrt_approx_spec,
    scaled_power,
    halved,
    doubled,
    ln_series,
    ln_approx_spec,
};

verus! {

/// Newton's method keeps a nonnegative guess nonnegative, for a positive `x`
/// that is not an infinity.
pub proof fn lemma_newton_nonnegative(x: Binary64, guess: Binary64, n: nat)
    requires
        x.is_finite(),
        !x.is_negative(),
        !x.is_zero(),
        guess.is_nonnegative(),
    ensures
        newton(x, guess, n).is_nonnegative(),
    decreases n,
{
    if n > 0 {
        let quotient = x.div_spec(guess);
        x.lemma_div_nonnegative(guess);
        guess.lemma_add_nonnegative(quotient);
        constant(HALF_BITS).lemma_mul_nonnegative(guess.add_spec(quotient));
        lemma_newton_nonnegative(
            x,
            constant(HALF_BITS).mul_spec(guess.add_spec(quotient)),
            (n - 1) as nat,
        );
    }
}

/// Newton's method keeps a guess that is not a number.
pub proof fn lemma_newton_nan(x: Binary64, guess: Binary64, n: nat)
    requires
        guess.is_nan(),
    ensures
        newton(x, guess, n).is_nan(),
    decreases n,
{
    if n > 0 {
        lemma_newton_nan(
            x,
            constant(HALF_BITS).mul_spec(guess.add_spec(x.div_spec(guess))),
            (n - 1) as nat,
        );
    }
}

/// The square root is not a number exactly below zero, at infinity and at
/// not-a-number: for every number that is not an infinity, exactly below zero.
pub proof fn lemma_sqrt_nan(x: Binary64)
    ensures
        sqrt_approx_spec(x).is_nan() <==> (x.lt_spec(constant(ZERO_BITS)) || !x.is_finite()),
        x.is_finite() ==> (sqrt_approx_spec(x).is_nan() <==> x.lt_spec(constant(ZERO_BITS))),
{
    let zero = constant(ZERO_BITS);
    if x.eq_spec(zero) {
        x.lemma_key_order(zero);
    } else if x.is_nan() {
        lemma_newton_nan(x, first_guess(x), 20);
    } else if !x.lt_spec(zero) {
        if x.is_infinite() {
            // Infinity over its half is not a number, and stays so.
            let guess = first_guess(x);
            lemma_newton_nan(
                x,
                constant(HALF_BITS).mul_spec(guess.add_spec(x.div_spec(guess))),
                19,
            );
        } else {
            lemma_newton_nonnegative(x, first_guess(x), 20);
        }
    }
}

/// The halving ends at a value of at most one and a half, which is still a
/// nonnegative number and no infinity.
pub proof fn lemma_halved_bounds(x: Binary64, k: int)
    requires
        x.is_finite(),
        !x.is_negative(),
    ensures
        halved(x, k).0.is_finite(),
        !halved(x, k).0.is_negative(),
        !constant(THREE_HALVES_BITS).lt_spec(halved(x, k).0),
    decreases x.key() + SIGN_MASK,
{
    let next = x.mul_spec(constant(HALF_BITS));
    if constant(THREE_HALVES_BITS).lt_spec(x) {
        constant(THREE_HALVES_BITS).lemma_key_order(x);
        lemma_half_exact(x);
        next.lemma_key_order(x);
        lemma_halved_bounds(next, k + 1);
    }
}

/// The doubling ends at a nonnegative number of at most two.
pub proof fn lemma_doubled_bounds(x: Binary64, k: int)
    requires
        x.is_finite(),
        !x.is_negative(),
        !constant(THREE_HALVES_BITS).lt_spec(x),
    ensures
        doubled(x, k).0.is_nonnegative(),
        doubled(x, k).0.within(1075),
    decreases SIGN_MASK - x.key(),
{
    let next = x.mul_spec(constant(TWO_BITS));
    lemma_constant_magnitudes();
    if x.lt_spec(constant(HALF_BITS)) && x.lt_spec(next) {
        x.lemma_key_order(next);
        x.lemma_mul_within(constant(TWO_BITS), 1073, 1075);
        next.lemma_within_finite(1074);
        lemma_doubled_bounds(next, k - 1);
    }
}

/// The powers of a value within four, by a step within sixteen, are within
/// four times the powers of sixteen.
pub proof fn lemma_scaled_power_within(z: Binary64, step: Binary64, n: nat)
    requires
        z.within(1076),
        step.within(1078),
        n <= 40,
    ensures
        scaled_power(z, step, n).within(1076 + 4 * n),
    decreases n,
{
    if n > 0 {
        lemma_scaled_power_within(z, step, (n - 1) as nat);
        scaled_power(z, step, (n - 1) as nat).lemma_mul_within(
            step,
            (1076 + 4 * (n - 1)) as nat,
            1078,
        );
    }
}

/// The series of the logarithm stays a number that is no infinity.
pub proof fn lemma_ln_series_within(z: Binary64, n: nat)
    requires
        z.within(1076),
        n <= 40,
    ensures
        ln_series(z, n).within(1077 + 4 * n),
    decreases n,
{
    lemma_pattern_value_start();
    if n > 0 {
        let e = (1073 + 4 * n) as nat;
        let term = scaled_power(z, z.mul_spec(z), (n - 1) as nat);
        let den = Binary64::from_int_spec(2 * n - 1);
        z.lemma_mul_within(z, 1076, 1076);
        lemma_scaled_power_within(z, z.mul_spec(z), (n - 1) as nat);
        lemma_from_int_reaches(2 * n - 1);
        term.lemma_div_within(den, (1072 + 4 * n) as nat, 1074);
        term.div_spec(den).lemma_within_wider((1072 + 4 * n) as nat, e);
        lemma_ln_series_within(z, (n - 1) as nat);
        ln_series(z, (n - 1) as nat).lemma_add_within(term.div_spec(den), e);
        ln_series(z, n).lemma_within_wider(e + 1, 1077 + 4 * n);
    }
}

/// Powers of not-a-number are not numbers.
pub proof fn lemma_scaled_power_nan(z: Binary64, step: Binary64, n: nat)
    requires
        z.is_nan(),
    ensures
        scaled_power(z, step, n).is_nan(),
    decreases n,
{
    if n > 0 {
        lemma_scaled_power_nan(z, step, (n - 1) as nat);
    }
}

/// The logarithm is not a number exactly at zero, below it, at infinity and
/// at not-a-number: for every number that is not an infinity, exactly at zero
/// and below.
pub proof fn lemma_ln_nan(x: Binary64)
    ensures
        ln_approx_spec(x).is_nan() <==> (x.le_spec(constant(ZERO_BITS)) || !x.is_finite()),
        x.is_finite() ==> (ln_approx_spec(x).is_nan() <==> x.le_spec(constant(ZERO_BITS))),
{
    let one = constant(ONE_BITS);
    if x.is_finite() && !x.le_spec(constant(ZERO_BITS)) {
        lemma_constant_magnitudes();
        let (h, up) = halved(x, 0);
        let (m, k) = doubled(h, up);
        let num = m.sub_spec(one);
        let den = m.add_spec(one);
        let z = num.div_spec(den);
        lemma_halved_bounds(x, 0);
        lemma_doubled_bounds(h, up);
        m.lemma_sub_within(one, 1075);
        lemma_add_reaches(m, one, 1074);
        num.lemma_div_within(den, 1076, 1074);
        lemma_ln_series_within(z, 39);
        let sum = ln_series(z, 39);
        constant(TWO_BITS).lemma_mul_within(sum, 1075, 1233);
        constant(TWO_BITS).mul_spec(sum).lemma_within_finite(1234);
    }
}

/// Two to the `k`, times `m` or over it: what `x = m * 2^k` says of the
/// magnitudes.
pub open spec fn scales_to(x: Binary64, m: Binary64, k: int) -> bool {
    if k >= 0 {
        x.magnitude() == m.magnitude() * pow2(k as nat)
    } else {
        x.magnitude() * pow2((-k) as nat) == m.magnitude()
    }
}

/// The halving is exact: the value at its end, times two to the count of
/// halvings, is the value at its start.
pub proof fn lemma_halved_exact(x: Binary64, k: int)
    requires
        x.is_finite(),
        !x.is_negative(),
    ensures
        halved(x, k).1 >= k,
        x.magnitude() == halved(x, k).0.magnitude() * pow2((halved(x, k).1 - k) as nat),
        constant(THREE_HALVES_BITS).lt_spec(x) ==> !halved(x, k).0.lt_spec(constant(HALF_BITS)),
        !constant(THREE_HALVES_BITS).lt_spec(x) ==> halved(x, k) == (x, k),
    decreases x.key() + SIGN_MASK,
{
    let next = x.mul_spec(constant(HALF_BITS));
    lemma_constant_magnitudes();
    vstd::arithmetic::power2::lemma2_to64();
    if constant(THREE_HALVES_BITS).lt_spec(x) {
        constant(THREE_HALVES_BITS).lemma_key_order(x);
        lemma_half_exact(x);
        lemma_halved_exact(next, k + 1);
        let (h, up) = halved(next, k + 1);
        lemma_pattern_doubled(next.pattern());
        let steps = (up - k - 1) as nat;
        lemma_pow2_unfold(steps + 1);
        assert(x.magnitude() == h.magnitude() * pow2(steps + 1)) by (nonlinear_arith)
            requires
                x.magnitude() == 2 * next.magnitude(),
                next.magnitude() == h.magnitude() * pow2(steps),
                pow2(steps + 1) == 2 * pow2(steps),
        ;
    } else {
        assert(x.magnitude() * 1 == x.magnitude());
    }
}

/// The doubling is exact: the value at its start, times two to the count of
/// doublings, is the value at its end. It ends at a half or more unless it
/// began at zero.
pub proof fn lemma_doubled_exact(x: Binary64, k: int)
    requires
        x.is_finite(),
        !x.is_negative(),
        !constant(THREE_HALVES_BITS).lt_spec(x),
    ensures
        doubled(x, k).1 <= k,
        doubled(x, k).0.magnitude() == x.magnitude() * pow2((k - doubled(x, k).1) as nat),
        !x.is_zero() ==> !doubled(x, k).0.lt_spec(constant(HALF_BITS)),
        !constant(THREE_HALVES_BITS).lt_spec(doubled(x, k).0),
        doubled(x, k).0.is_nonnegative(),
    decreases SIGN_MASK - x.key(),
{
    let next = x.mul_spec(constant(TWO_BITS));
    lemma_constant_magnitudes();
    lemma_pattern_value_start();
    if x.lt_spec(constant(HALF_BITS)) {
        x.lemma_key_order(constant(HALF_BITS));
        lemma_double_exact(x);
        x.lemma_key_order(next);
        if x.lt_spec(next) {
            lemma_doubled_exact(next, k - 1);
            let (m, down) = doubled(next, k - 1);
            let steps = (k - 1 - down) as nat;
            lemma_pow2_unfold(steps + 1);
            assert(m.magnitude() == x.magnitude() * pow2(steps + 1)) by (nonlinear_arith)
                requires
                    next.magnitude() == 2 * x.magnitude(),
                    m.magnitude() == next.magnitude() * pow2(steps),
                    pow2(steps + 1) == 2 * pow2(steps),
            ;
        } else {
            assert(x.magnitude() * 1 == x.magnitude());
        }
    }
}

/// The reduction of the logarithm is exact and ends in range: for every
/// number `x` above zero that is no infinity, the reduced value `m` lies
/// between a half and one and a half, and `x` is `m` times two to the `k`.
pub proof fn lemma_ln_reduction(x: Binary64)
    requires
        x.is_finite(),
        constant(ZERO_BITS).lt_spec(x),
    ensures
        ({
            let (h, up) = halved(x, 0);
            let (m, k) = doubled(h, up);
            &&& !m.lt_spec(constant(HALF_BITS))
            &&& !constant(THREE_HALVES_BITS).lt_spec(m)
            &&& m.is_nonnegative()
            &&& scales_to(x, m, k)
        }),
{
    let (h, up) = halved(x, 0);
    let (m, k) = doubled(h, up);
    lemma_halved_bounds(x, 0);
    lemma_halved_exact(x, 0);
    lemma_doubled_exact(h, up);
}

/// The logarithm of every number above zero that is no infinity is no
/// infinity: the count of halvings and doublings stays within the range of
/// the exponents.
pub proof fn lemma_ln_finite(x: Binary64)
    requires
        x.is_finite(),
        constant(ZERO_BITS).lt_spec(x),
    ensures
        ln_approx_spec(x).is_finite(),
        -1075 <= doubled(halved(x, 0).0, halved(x, 0).1).1 <= 1024,
{
    let one = constant(ONE_BITS);
    let (h, up) = halved(x, 0);
    let (m, k) = doubled(h, up);
    lemma_constant_magnitudes();
    lemma_pattern_value_start();
    lemma_ln_reduction(x);
    constant(ZERO_BITS).lemma_key_order(x);
    m.lemma_key_order(constant(HALF_BITS));
    constant(THREE_HALVES_BITS).lemma_key_order(m);
    // The count is within the range of the exponents.
    crate::float::bounds::lemma_power_pattern(2098);
    lemma_pattern_value_increasing(x.pattern(), crate::float::pattern::INFINITY_PATTERN);
    lemma_pattern_value_increasing(0, x.pattern());
    if k >= 1025 {
        crate::float::bounds::lemma_pow2_monotone(1025, k as nat);
        lemma_pow2_adds(1073, 1025);
        assert(m.magnitude() * pow2(k as nat) >= pow2(1073) * pow2(1025)) by (nonlinear_arith)
            requires
                m.magnitude() >= pow2(1073),
                pow2(k as nat) >= pow2(1025),
        ;
    }
    if k <= -1076 {
        crate::float::bounds::lemma_pow2_monotone(1076, (-k) as nat);
        lemma_pow2_unfold(1076);
        lemma_pow2_unfold(1075);
        lemma_pow2_unfold(1074);
        assert(x.magnitude() * pow2((-k) as nat) >= pow2(1076)) by (nonlinear_arith)
            requires
                x.magnitude() >= 1,
                pow2((-k) as nat) >= pow2(1076),
        ;
    }
    // The series and the count, each times its factor, are no infinities.
    let z = m.sub_spec(one).div_spec(m.add_spec(one));
    lemma_halved_bounds(x, 0);
    lemma_doubled_bounds(h, up);
    m.lemma_sub_within(one, 1075);
    lemma_add_reaches(m, one, 1074);
    m.sub_spec(one).lemma_div_within(m.add_spec(one), 1076, 1074);
    lemma_ln_series_within(z, 39);
    constant(TWO_BITS).lemma_mul_within(ln_series(z, 39), 1075, 1233);
    crate::float::bounds::lemma_from_int_exact(k);
    let count = Binary64::from_int_spec(k);
    lemma_pow2_adds(11, 1074);
    vstd::arithmetic::power2::lemma2_to64();
    assert(count.magnitude() <= pow2(11) * pow2(1074)) by (nonlinear_arith)
        requires
            count.magnitude() == (if k < 0 {
                -k
            } else {
                k
            }) * pow2(1074),
            -1075 <= k <= 1024,
            pow2(11) == 2048,
            pow2(1074) > 0,
    {
        lemma_pow2_pos(1074);
    }
    assert(constant(LN_2_BITS).no_larger_than(one));
    constant(LN_2_BITS).lemma_no_larger_within(one, 1074);
    count.lemma_mul_within(constant(LN_2_BITS), 1085, 1074);
    count.mul_spec(constant(LN_2_BITS)).lemma_within_wider(1085, 1234);
    constant(TWO_BITS).mul_spec(ln_series(z, 39)).lemma_add_within(
        count.mul_spec(constant(LN_2_BITS)),
        1234,
    );
    ln_approx_spec(x).lemma_within_finite(1235);
}

} // verus!
