#[allow(unused_imports)]
use const_poly::Binary64;
#[allow(unused_imports)]
use const_poly::function_approximations::{ln_approx, sqrt_approx, static_powi, exp_approx, tan_approx};
#[allow(unused_imports)]
use const_poly::term::{Term, VarFunction};

fn from_f64(x: f64) -> Binary64 {
    Binary64::from_bits(x.to_bits())
}

fn to_f64(x: Binary64) -> f64 {
    f64::from_bits(x.to_bits())
}

fn values(vars: &[f64]) -> Vec<Binary64> {
    vars.iter().map(|x| from_f64(*x)).collect()
}

fn numbers_above_zero() -> Vec<f64> {
    vec![
        5e-324,
        1e-320,
        2.2250738585072014e-308,
        1e-300,
        1e-10,
        0.49999999999999994,
        0.5,
        0.75,
        1.0,
        1.4999999999999998,
        1.5,
        1.5000000000000002,
        2.0,
        3.0,
        1e10,
        1e300,
        8.98846567431158e307,
        1.7976931348623157e308,
    ]
}

#[test]
fn the_logarithm_is_a_number_exactly_above_zero() {
    for x in numbers_above_zero() {
        assert!(!to_f64(ln_approx(from_f64(x))).is_nan(), "{:e}", x);
        assert!(to_f64(ln_approx(from_f64(-x))).is_nan(), "{:e}", -x);
    }
    assert!(to_f64(ln_approx(from_f64(0.0))).is_nan());
    assert!(to_f64(ln_approx(from_f64(-0.0))).is_nan());
    assert!(to_f64(ln_approx(from_f64(f64::NEG_INFINITY))).is_nan());
}

#[test]
fn the_logarithm_of_infinity_and_of_not_a_number() {
    assert!(to_f64(ln_approx(from_f64(f64::INFINITY))).is_nan());
    assert!(to_f64(ln_approx(from_f64(f64::NAN))).is_nan());
}

#[test]
fn the_square_root_is_a_number_exactly_from_zero() {
    for x in numbers_above_zero() {
        assert!(!to_f64(sqrt_approx(from_f64(x))).is_nan(), "{:e}", x);
        assert!(to_f64(sqrt_approx(from_f64(-x))).is_nan(), "{:e}", -x);
    }
    assert_eq!(sqrt_approx(from_f64(0.0)).to_bits(), 0.0f64.to_bits());
    assert_eq!(sqrt_approx(from_f64(-0.0)).to_bits(), 0.0f64.to_bits());
    assert!(to_f64(sqrt_approx(from_f64(f64::NEG_INFINITY))).is_nan());
}

#[test]
fn the_square_root_of_infinity_and_of_not_a_number() {
    assert!(to_f64(sqrt_approx(from_f64(f64::INFINITY))).is_nan());
    assert!(to_f64(sqrt_approx(from_f64(f64::NAN))).is_nan());
}

#[test]
fn every_base_to_the_power_zero_is_one() {
    let bases = [
        0.0,
        -0.0,
        1.0,
        -1.0,
        2.0,
        0.1,
        -7.5,
        5e-324,
        1.7976931348623157e308,
        f64::INFINITY,
        f64::NEG_INFINITY,
        f64::NAN,
    ];
    for b in bases {
        assert_eq!(static_powi(from_f64(b), 0).to_bits(), 1.0f64.to_bits(), "{:e}", b);
    }
}

#[test]
fn a_negative_power_is_the_reciprocal_of_the_positive_one() {
    for b in [3.0, 0.1, -2.5, 7.0, 1e10] {
        for e in 1..=20 {
            let up = to_f64(static_powi(from_f64(b), e));
            let down = to_f64(static_powi(from_f64(b), -e));
            assert_eq!(down.to_bits(), (1.0 / up).to_bits(), "{:e}^-{}", b, e);
        }
    }
}

#[test]
fn the_powers_of_two_are_exact() {
    for n in -1022..=1023 {
        let got = static_powi(from_f64(2.0), n);
        let expected = f64::from_bits(((n + 1023) as u64) << 52);
        assert_eq!(got.to_bits(), expected.to_bits(), "2^{}", n);
    }
}

#[test]
fn the_lowest_exponent_is_taken_as_it_is() {
    assert_eq!(to_f64(static_powi(from_f64(2.0), i32::MIN)), 0.0);
    assert_eq!(to_f64(static_powi(from_f64(1.0), i32::MIN)), 1.0);
    assert_eq!(to_f64(static_powi(from_f64(0.5), i32::MIN)), f64::INFINITY);
}

#[test]
fn the_exponential_of_zero_is_one() {
    assert_eq!(exp_approx(from_f64(0.0)).to_bits(), 1.0f64.to_bits());
    assert_eq!(exp_approx(from_f64(-0.0)).to_bits(), 1.0f64.to_bits());
    assert!(to_f64(exp_approx(from_f64(f64::NAN))).is_nan());
}

#[test]
fn the_exponential_is_above_zero_for_moderate_numbers() {
    let mut x = -256.0;
    while x <= 256.0 {
        let e = to_f64(exp_approx(from_f64(x)));
        assert!(e.is_finite() && e > 0.0, "exp {:e} = {:e}", x, e);
        x += 0.37;
    }
    for x in [5e-324, -5e-324, 1e-300, -1e-300, 256.0, -256.0] {
        let e = to_f64(exp_approx(from_f64(x)));
        assert!(e.is_finite() && e > 0.0, "exp {:e} = {:e}", x, e);
    }
}

#[test]
fn the_logarithm_is_never_an_infinity() {
    for x in numbers_above_zero() {
        assert!(to_f64(ln_approx(from_f64(x))).is_finite(), "{:e}", x);
    }
}

#[test]
fn the_tangent_at_a_pole_is_large_and_finite() {
    let up = to_f64(tan_approx(from_f64(1.5707963267297618)));
    assert_eq!(up, 1e12);
    let down = to_f64(tan_approx(from_f64(-1.5707963267297618)));
    assert_eq!(down, -1e12);
}

#[test]
fn a_negated_coefficient_negates_the_term() {
    let functions = vec![VarFunction::Sin, VarFunction::Pow(-3), VarFunction::Exp];
    let vars = values(&[0.3, 1.7, -2.5]);
    for c in [0.1, 3.0, -2.5, 1e-300, 1e300, 0.0] {
        let t = Term::new(from_f64(c), functions.clone());
        let n = Term::new(from_f64(c).neg(), functions.clone());
        assert_eq!(n.evaluate(&vars).to_bits(), t.evaluate(&vars).neg().to_bits(), "{:e}", c);
    }
    let t = Term::new(from_f64(1.0), vec![VarFunction::Ln]);
    let n = Term::new(from_f64(-1.0), vec![VarFunction::Ln]);
    let at = values(&[-1.0]);
    assert!(to_f64(t.evaluate(&at)).is_nan() && to_f64(n.evaluate(&at)).is_nan());
}

#[test]
fn a_doubled_coefficient_doubles_the_term() {
    let functions = vec![VarFunction::Sin, VarFunction::Pow(-3), VarFunction::Exp];
    let vars = values(&[0.3, 1.7, -2.5]);
    let two = from_f64(2.0);
    for c in [0.1, 3.0, -2.5, 1e-100, 1e100] {
        let t = Term::new(from_f64(c), functions.clone());
        let d = Term::new(two.mul(from_f64(c)), functions.clone());
        assert_eq!(d.evaluate(&vars).to_bits(), two.mul(t.evaluate(&vars)).to_bits(), "{:e}", c);
    }
}

#[test]
fn a_halved_coefficient_halves_the_term() {
    let functions = vec![VarFunction::Sin, VarFunction::Pow(-3), VarFunction::Exp];
    let vars = values(&[0.3, 1.7, -2.5]);
    let half = from_f64(0.5);
    for c in [0.1, 3.0, -2.5, 1e-100, 1e100] {
        let t = Term::new(from_f64(c), functions.clone());
        let h = Term::new(half.mul(from_f64(c)), functions.clone());
        assert_eq!(h.evaluate(&vars).to_bits(), half.mul(t.evaluate(&vars)).to_bits(), "{:e}", c);
    }
}

#[test]
fn a_tripled_coefficient_need_not_triple_the_term() {
    let three = from_f64(3.0);
    let t = Term::new(from_f64(0.1), vec![VarFunction::Identity]);
    let s = Term::new(three.mul(from_f64(0.1)), vec![VarFunction::Identity]);
    let vars = values(&[0.3]);
    assert_eq!(to_f64(s.evaluate(&vars)), 0.09000000000000001);
    assert_eq!(to_f64(three.mul(t.evaluate(&vars))), 0.09);
}

#[test]
fn doubling_below_the_normal_range_can_round() {
    // 3 * 2^-1074 times a half rounds to 2 * 2^-1074; twice that is not
    // 6 * 2^-1074 times a half.
    let c = from_f64(1.5e-323);
    let t = Term::new(c, vec![VarFunction::Identity]);
    let d = Term::new(from_f64(2.0).mul(c), vec![VarFunction::Identity]);
    let vars = values(&[0.5]);
    assert_eq!(to_f64(t.evaluate(&vars)), 1e-323);
    assert_eq!(to_f64(d.evaluate(&vars)), 1.5e-323);
}

fn numbers_of_every_kind() -> Vec<f64> {
    vec![
        0.0,
        -0.0,
        5e-324,
        -5e-324,
        1e-200,
        -1e-160,
        1e-10,
        0.5,
        -0.66,
        0.6600000000000001,
        1.0,
        -1.0,
        1.0000000000000002,
        3.0,
        -40.0,
        710.0,
        1e10,
        -1e154,
        1.3407807929942597e154,
        1e200,
        -1.7976931348623157e308,
        f64::INFINITY,
        f64::NEG_INFINITY,
    ]
}

#[test]
fn the_hyperbolic_functions_are_numbers_for_every_number() {
    use_all(&numbers_of_every_kind(), |x| {
        let s = to_f64(const_poly::function_approximations::sinh_approx(from_f64(x)));
        let c = to_f64(const_poly::function_approximations::cosh_approx(from_f64(x)));
        assert!(!s.is_nan(), "sinh {:e}", x);
        assert!(!c.is_nan(), "cosh {:e}", x);
        assert_eq!(s.is_sign_negative(), x.is_sign_negative(), "sinh {:e}", x);
        assert!(!c.is_sign_negative(), "cosh {:e}", x);
    });
    assert!(to_f64(const_poly::function_approximations::sinh_approx(from_f64(f64::NAN))).is_nan());
    assert!(to_f64(const_poly::function_approximations::cosh_approx(from_f64(f64::NAN))).is_nan());
}

#[test]
fn the_arctangent_is_finite_for_every_number() {
    use_all(&numbers_of_every_kind(), |x| {
        let a = to_f64(const_poly::function_approximations::arctan_approx(from_f64(x)));
        assert!(a.is_finite(), "arctan {:e} = {:e}", x, a);
    });
    assert!(to_f64(const_poly::function_approximations::arctan_approx(from_f64(f64::NAN))).is_nan());
}

#[test]
fn the_arctangent_beyond_one_goes_by_the_reciprocal() {
    let half_pi = from_f64(core::f64::consts::FRAC_PI_2);
    let one = from_f64(1.0);
    for x in [1.0000000000000002, 1.5, 2.0, 10.0, 1e300, f64::INFINITY] {
        let direct = const_poly::function_approximations::arctan_approx(from_f64(x));
        let inner = const_poly::function_approximations::arctan_approx(one.div(from_f64(x)));
        assert_eq!(direct.to_bits(), half_pi.sub(inner).to_bits(), "{:e}", x);
        let mirrored = const_poly::function_approximations::arctan_approx(from_f64(-x));
        let inner = const_poly::function_approximations::arctan_approx(one.div(from_f64(-x)));
        assert_eq!(mirrored.to_bits(), half_pi.neg().sub(inner).to_bits(), "{:e}", -x);
    }
}

#[test]
fn the_trigonometric_functions_are_finite_for_moderate_numbers() {
    let mut x = -70000.0;
    while x < 70000.0 {
        let v = from_f64(x);
        let s = to_f64(const_poly::function_approximations::sin_approx(v));
        let c = to_f64(const_poly::function_approximations::cos_approx(v));
        let t = to_f64(tan_approx(v));
        assert!(s.is_finite() && c.is_finite() && t.is_finite(), "{:e}", x);
        let folded = to_f64(const_poly::function_approximations::reduce_angle_for_sine(v));
        assert!(folded.abs() <= core::f64::consts::FRAC_PI_2, "{:e} folds to {:e}", x, folded);
        let (angle, sign) = const_poly::function_approximations::reduce_angle_for_cos(v);
        assert_eq!(angle.to_bits(), folded.to_bits());
        assert!(to_f64(sign) == 1.0 || to_f64(sign) == -1.0);
        x += 997.3;
    }
}

#[test]
fn an_angle_that_no_turn_changes_is_left_alone() {
    for x in [1e300, -1e300, f64::INFINITY, 1.8014398509481984e17] {
        let turned = const_poly::function_approximations::reduce_to_turn(from_f64(x));
        assert_eq!(turned.to_bits(), x.to_bits());
    }
    assert!(to_f64(const_poly::function_approximations::reduce_to_turn(from_f64(f64::NAN))).is_nan());
}

fn use_all(values: &[f64], check: fn(f64)) {
    for &x in values {
        check(x);
    }
}
