//! The range reductions end where the series are meant to be used.

use vstd::prelude::*;
use vstd::arithmetic::power2::{pow2, lemma_pow2_pos, lemma_pow2_adds, lemma_pow2_unfold};
use crate::float::pattern::{
    HIDDEN_BIT,
    pattern_exponent,
    pattern_significand,
    pattern_value,
    lemma_pattern_step,
    lemma_pattern_value_increasing,
    lemma_pattern_value_start,
};
use crate::float::rounding::lemma_round_upper;
use crate::float::bounds::lemma_round_reaches;
use crate::float::constants::lemma_constant_magnitudes;
use crate::float::bounds::lemma_add_reaches;
use crate::float::binary64::Binary64;
use crate::float::constants::{
    constant,
    ONE_BITS,
    NEG_ONE_BITS,
    NEAR_ONE_BITS,
    NEG_NEAR_ONE_BITS,
    HALF_PI_BITS,
    NEG_HALF_PI_BITS,
    QUARTER_PI_BITS,
    NEG_QUARTER_PI_BITS,
    PI_BITS,
    NEG_PI_BITS,
    TWO_PI_BITS,
};
use crate::function_approximations::{
    arctan_series,
    arctan_approx_spec,
    wound_down,
    wound_up,
    within_turn,
    sine_angle,
    cosine_angle,
};
use crate::float::exact::lemma_pattern_doubled;
use crate::float::pattern::SIGN_MASK;
use crate::float::bounds::lemma_pow2_monotone;

verus! {

/// 0.66 is more than half of one.
proof fn lemma_near_one_magnitude()
    ensures
        constant(ONE_BITS).magnitude() <= 2 * constant(NEAR_ONE_BITS).magnitude(),
        constant(NEAR_ONE_BITS).magnitude() <= constant(ONE_BITS).magnitude(),
{
    lemma_constant_magnitudes();
    lemma_pow2_unfold(1022);
    let m = pattern_significand(NEAR_ONE_BITS);
    lemma_pow2_adds(52, 1022);
    assert(2 * (m * pow2(1021)) >= HIDDEN_BIT * pow2(1022)) by (nonlinear_arith)
        requires
            m >= HIDDEN_BIT,
            pow2(1022) == 2 * pow2(1021),
    ;
    lemma_pattern_value_increasing(NEAR_ONE_BITS, ONE_BITS);
}

/// The reciprocal of a value beyond one, on either side, lies between minus
/// one and one.
pub proof fn lemma_reciprocal_within_one(x: Binary64)
    requires
        constant(ONE_BITS).lt_spec(x) || x.lt_spec(constant(NEG_ONE_BITS)),
    ensures
        constant(ONE_BITS).div_spec(x).no_larger_than(constant(ONE_BITS)),
{
    let one = constant(ONE_BITS);
    lemma_constant_magnitudes();
    lemma_pattern_value_start();
    one.lemma_key_order(x);
    x.lemma_key_order(constant(NEG_ONE_BITS));
    if x.is_finite() {
        let unit = pow2(1074);
        assert(unit * unit <= unit * x.magnitude()) by (nonlinear_arith)
            requires
                unit <= x.magnitude(),
        ;
        lemma_round_upper(unit * unit, x.magnitude(), ONE_BITS);
    }
}

/// For a value between 0.66 and one in magnitude, the difference from one on
/// its own side, over the sum with one on that side, is at most 0.66 in
/// magnitude.
pub proof fn lemma_shifted_within_near_one(x: Binary64)
    requires
        x.no_larger_than(constant(ONE_BITS)),
        constant(NEAR_ONE_BITS).lt_spec(x) || x.lt_spec(constant(NEG_NEAR_ONE_BITS)),
    ensures
        !x.is_negative() ==> x.sub_spec(constant(ONE_BITS)).div_spec(
            constant(ONE_BITS).add_spec(x),
        ).no_larger_than(constant(NEAR_ONE_BITS)),
        x.is_negative() ==> x.add_spec(constant(ONE_BITS)).div_spec(
            constant(ONE_BITS).sub_spec(x),
        ).no_larger_than(constant(NEAR_ONE_BITS)),
{
    let one = constant(ONE_BITS);
    let near = constant(NEAR_ONE_BITS);
    lemma_constant_magnitudes();
    lemma_near_one_magnitude();
    lemma_pattern_value_start();
    near.lemma_key_order(x);
    x.lemma_key_order(constant(NEG_NEAR_ONE_BITS));
    if x.pattern() < one.pattern() {
        lemma_pattern_value_increasing(x.pattern(), one.pattern());
    }
    lemma_pattern_value_increasing(near.pattern(), x.pattern());
    let gap = (one.magnitude() - x.magnitude()) as nat;
    lemma_round_upper(gap, 1, NEAR_ONE_BITS);
    let num = if x.is_negative() {
        x.add_spec(one)
    } else {
        x.sub_spec(one)
    };
    let den = if x.is_negative() {
        one.sub_spec(x)
    } else {
        one.add_spec(x)
    };
    if num.pattern() < near.pattern() {
        lemma_pattern_value_increasing(num.pattern(), near.pattern());
    }
    if x.is_negative() {
        lemma_add_reaches(x.neg_spec(), one, 1074);
        lemma_round_reaches(one.magnitude() + x.magnitude(), 1, 1074);
    } else {
        lemma_add_reaches(x, one, 1074);
        lemma_round_reaches(one.magnitude() + x.magnitude(), 1, 1074);
    }
    if den.is_finite() {
        assert(num.magnitude() * pow2(1074) <= near.magnitude() * den.magnitude())
            by (nonlinear_arith)
            requires
                num.magnitude() <= near.magnitude(),
                pow2(1074) <= den.magnitude(),
        ;
        lemma_pow2_pos(1074);
        lemma_round_upper(num.magnitude() * pow2(1074), den.magnitude(), NEAR_ONE_BITS);
    }
}

/// The arctangent takes each reduction once: the value that a reduction
/// hands on is one that the next reduction, or the series, is meant for. So
/// the arctangent is the one function that is, beyond one on either side, a
/// quarter turn less itself at the reciprocal; beyond 0.66 on either side, an
/// eighth of a turn plus itself at the shifted value; and the series elsewhere.
pub proof fn lemma_arctan_unfolds(x: Binary64)
    ensures
        arctan_approx_spec(x) == (if constant(ONE_BITS).lt_spec(x) {
            constant(HALF_PI_BITS).sub_spec(arctan_approx_spec(constant(ONE_BITS).div_spec(x)))
        } else if x.lt_spec(constant(NEG_ONE_BITS)) {
            constant(NEG_HALF_PI_BITS).sub_spec(
                arctan_approx_spec(constant(ONE_BITS).div_spec(x)),
            )
        } else if constant(NEAR_ONE_BITS).lt_spec(x) {
            constant(QUARTER_PI_BITS).add_spec(
                arctan_approx_spec(
                    x.sub_spec(constant(ONE_BITS)).div_spec(constant(ONE_BITS).add_spec(x)),
                ),
            )
        } else if x.lt_spec(constant(NEG_NEAR_ONE_BITS)) {
            constant(NEG_QUARTER_PI_BITS).add_spec(
                arctan_approx_spec(
                    x.add_spec(constant(ONE_BITS)).div_spec(constant(ONE_BITS).sub_spec(x)),
                ),
            )
        } else {
            arctan_series(x, 29)
        }),
{
    let one = constant(ONE_BITS);
    let near = constant(NEAR_ONE_BITS);
    lemma_near_one_magnitude();
    if one.lt_spec(x) || x.lt_spec(constant(NEG_ONE_BITS)) {
        lemma_reciprocal_within_one(x);
        one.div_spec(x).lemma_between(one);
    } else if near.lt_spec(x) || x.lt_spec(constant(NEG_NEAR_ONE_BITS)) {
        one.lemma_key_order(x);
        x.lemma_key_order(constant(NEG_ONE_BITS));
        near.lemma_key_order(x);
        x.lemma_key_order(constant(NEG_NEAR_ONE_BITS));
        lemma_shifted_within_near_one(x);
        let y = if x.is_negative() {
            x.add_spec(one).div_spec(one.sub_spec(x))
        } else {
            x.sub_spec(one).div_spec(one.add_spec(x))
        };
        y.lemma_between(near);
        y.lemma_between(one);
    }
}

/// The pattern of 2^55. Below it, a full turn is more than the step between
/// neighbouring values, so that taking one off or adding one always moves.
pub const TURN_LIMIT: u64 = 0x4360_0000_0000_0000;

/// Pi is twice its half, a full turn is twice pi, and a full turn is at
/// least four.
proof fn lemma_turn_magnitudes()
    ensures
        constant(PI_BITS).magnitude() == 2 * constant(HALF_PI_BITS).magnitude(),
        constant(TWO_PI_BITS).magnitude() == 2 * constant(PI_BITS).magnitude(),
        constant(TWO_PI_BITS).magnitude() >= pow2(1076),
{
    lemma_pattern_doubled(HALF_PI_BITS);
    lemma_pattern_doubled(PI_BITS);
    let m = pattern_significand(TWO_PI_BITS);
    lemma_pow2_adds(52, 1024);
    crate::float::pack::lemma_pow2_128();
    assert(m * pow2(1024) >= HIDDEN_BIT * pow2(1024)) by (nonlinear_arith)
        requires
            m >= HIDDEN_BIT,
    ;
}

/// Below 2^55, the value before any value above zero lies at most a full
/// turn lower.
proof fn lemma_step_within_turn(p: u64)
    requires
        0 < p < TURN_LIMIT,
    ensures
        pattern_value(p) - pattern_value((p - 1) as u64) <= constant(TWO_PI_BITS).magnitude(),
{
    let q = (p - 1) as u64;
    lemma_pattern_step(q);
    lemma_turn_magnitudes();
    lemma_pow2_monotone(pattern_exponent(q), 1076);
}

/// One turn off a value above pi and below 2^55 gives a lower value that is
/// not below minus pi.
pub proof fn lemma_turn_down(x: Binary64)
    requires
        constant(PI_BITS).lt_spec(x),
        x.pattern() < TURN_LIMIT,
    ensures
        x.sub_spec(constant(TWO_PI_BITS)).lt_spec(x),
        x.sub_spec(constant(TWO_PI_BITS)).pattern() < TURN_LIMIT,
        !x.sub_spec(constant(TWO_PI_BITS)).is_nan(),
        !x.sub_spec(constant(TWO_PI_BITS)).lt_spec(constant(NEG_PI_BITS)),
{
    let pi = constant(PI_BITS);
    let turn = constant(TWO_PI_BITS);
    let next = x.sub_spec(turn);
    let p = x.pattern();
    lemma_turn_magnitudes();
    lemma_pattern_value_start();
    pi.lemma_key_order(x);
    lemma_pattern_value_increasing(PI_BITS, p);
    let a = x.magnitude();
    let t = turn.magnitude();
    if a > t {
        lemma_step_within_turn(p);
        lemma_round_upper((a - t) as nat, 1, (p - 1) as u64);
    } else if a < t {
        lemma_round_upper((t - a) as nat, 1, PI_BITS);
    }
    next.lemma_key_order(x);
    next.lemma_key_order(constant(NEG_PI_BITS));
}

/// One turn added to a value below minus pi and above -2^55 gives a higher
/// value that is not above pi.
pub proof fn lemma_turn_up(x: Binary64)
    requires
        x.lt_spec(constant(NEG_PI_BITS)),
        x.pattern() < TURN_LIMIT,
    ensures
        x.lt_spec(x.add_spec(constant(TWO_PI_BITS))),
        x.add_spec(constant(TWO_PI_BITS)).pattern() < TURN_LIMIT,
        !x.add_spec(constant(TWO_PI_BITS)).is_nan(),
        !constant(PI_BITS).lt_spec(x.add_spec(constant(TWO_PI_BITS))),
{
    let pi = constant(PI_BITS);
    let turn = constant(TWO_PI_BITS);
    let next = x.add_spec(turn);
    let p = x.pattern();
    lemma_turn_magnitudes();
    lemma_pattern_value_start();
    x.lemma_key_order(constant(NEG_PI_BITS));
    lemma_pattern_value_increasing(PI_BITS, p);
    let a = x.magnitude();
    let t = turn.magnitude();
    if a > t {
        lemma_step_within_turn(p);
        lemma_round_upper((a - t) as nat, 1, (p - 1) as u64);
    } else if a < t {
        lemma_round_upper((t - a) as nat, 1, PI_BITS);
    }
    x.lemma_key_order(next);
    pi.lemma_key_order(next);
}

/// Taking turns off a number below 2^55 ends at most at pi, and not below
/// minus pi unless it began there.
pub proof fn lemma_wound_down_range(x: Binary64)
    requires
        !x.is_nan(),
        x.pattern() < TURN_LIMIT,
    ensures
        !wound_down(x).is_nan(),
        wound_down(x).pattern() < TURN_LIMIT,
        !constant(PI_BITS).lt_spec(wound_down(x)),
        !x.lt_spec(constant(NEG_PI_BITS)) ==> !wound_down(x).lt_spec(constant(NEG_PI_BITS)),
    decreases x.key() + SIGN_MASK,
{
    let next = x.sub_spec(constant(TWO_PI_BITS));
    if constant(PI_BITS).lt_spec(x) {
        lemma_turn_down(x);
        next.lemma_key_order(x);
        lemma_wound_down_range(next);
    }
}

/// Adding turns to a number that is at most pi and above -2^55 ends between
/// minus pi and pi.
pub proof fn lemma_wound_up_range(x: Binary64)
    requires
        !x.is_nan(),
        x.pattern() < TURN_LIMIT,
        !constant(PI_BITS).lt_spec(x),
    ensures
        wound_up(x).no_larger_than(constant(PI_BITS)),
    decreases SIGN_MASK - x.key(),
{
    let next = x.add_spec(constant(TWO_PI_BITS));
    if x.lt_spec(constant(NEG_PI_BITS)) {
        lemma_turn_up(x);
        x.lemma_key_order(next);
        lemma_wound_up_range(next);
    } else {
        constant(PI_BITS).lemma_key_order(x);
        x.lemma_key_order(constant(NEG_PI_BITS));
    }
}

/// Every number below 2^55 in magnitude is brought between minus pi and pi,
/// and folded between minus half of pi and half of pi.
pub proof fn lemma_angle_range(x: Binary64)
    requires
        !x.is_nan(),
        x.pattern() < TURN_LIMIT,
    ensures
        within_turn(x).no_larger_than(constant(PI_BITS)),
        sine_angle(x).no_larger_than(constant(HALF_PI_BITS)),
        cosine_angle(x).0.no_larger_than(constant(HALF_PI_BITS)),
        cosine_angle(x).0 == sine_angle(x),
{
    let pi = constant(PI_BITS);
    let half_pi = constant(HALF_PI_BITS);
    lemma_wound_down_range(x);
    lemma_wound_up_range(wound_down(x));
    let w = within_turn(x);
    lemma_turn_magnitudes();
    lemma_pattern_value_start();
    half_pi.lemma_key_order(w);
    w.lemma_key_order(constant(NEG_HALF_PI_BITS));
    if w.pattern() < PI_BITS {
        lemma_pattern_value_increasing(w.pattern(), PI_BITS);
    }
    if HALF_PI_BITS < w.pattern() {
        lemma_pattern_value_increasing(HALF_PI_BITS, w.pattern());
        lemma_round_upper((pi.magnitude() - w.magnitude()) as nat, 1, HALF_PI_BITS);
    }
}

} // verus!
