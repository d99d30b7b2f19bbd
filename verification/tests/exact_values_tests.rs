#[allow(unused_imports)]
use const_poly::Binary64;
#[allow(unused_imports)]
use const_poly::function_approximations;

fn from_f64(x: f64) -> Binary64 {
    Binary64::from_bits(x.to_bits())
}

fn to_f64(x: Binary64) -> f64 {
    f64::from_bits(x.to_bits())
}

/// The two are the same bits, or neither is a number.
fn check(name: &str, input: f64, actual: Binary64, expected: f64) {
    let got = to_f64(actual);
    if expected.is_nan() {
        assert!(got.is_nan(), "{}({:e}) = {:e}, expected not-a-number", name, input, got);
    } else {
        assert_eq!(
            got.to_bits(),
            expected.to_bits(),
            "{}({:e}) = {:e}, expected {:e}",
            name,
            input,
            got,
            expected
        );
    }
}

#[test]
fn sin_approx_exact_values() {
    let cases: [(f64, f64); 18] = [
        (0.0, 0.0),
        (0.5, 0.479425538604203),
        (-0.5, -0.479425538604203),
        (1.0, 0.8414709848086585),
        (2.0, 0.9092974268312289),
        (3.0, 0.1411200080598671),
        (-3.0, -0.1411200080598671),
        (4.0, -0.7568024953080056),
        (-4.0, 0.7568024953080056),
        (6.0, -0.27941549819892564),
        (10.0, -0.5440211108893702),
        (-10.0, 0.5440211108893702),
        (100.0, -0.5063656411097863),
        (1e-300, 1e-300),
        (5e-324, 5e-324),
        (1.5707963267948966, 1.0000000006627803),
        (3.141592653589793, 0.0),
        (-3.141592653589793, 0.0),
    ];
    for &(input, expected) in &cases {
        check("sin_approx", input, function_approximations::sin_approx(from_f64(input)), expected);
    }
}

#[test]
fn cos_approx_exact_values() {
    let cases: [(f64, f64); 17] = [
        (0.0, 1.0),
        (0.5, 0.8775825618903728),
        (-0.5, 0.8775825618903728),
        (1.0, 0.540302305868092),
        (2.0, -0.4161468365467465),
        (3.0, -0.9899924966004455),
        (-3.0, -0.9899924966004455),
        (4.0, -0.6536436208636076),
        (-4.0, -0.6536436208636076),
        (6.0, 0.9601702866503661),
        (10.0, -0.8390715290764522),
        (-10.0, -0.8390715290764522),
        (100.0, 0.862318872287668),
        (1e-300, 1.0),
        (1.5707963267948966, -6.513356794613716e-11),
        (3.141592653589793, -1.0),
        (-3.141592653589793, -1.0),
    ];
    for &(input, expected) in &cases {
        check("cos_approx", input, function_approximations::cos_approx(from_f64(input)), expected);
    }
}

#[test]
fn tan_approx_exact_values() {
    let cases: [(f64, f64); 12] = [
        (0.0, 0.0),
        (0.5, 0.5463024898437905),
        (-0.5, -0.5463024898437905),
        (1.0, 1.55740772465645),
        (1.5, 14.101419958079285),
        (2.0, -2.1850398632769275),
        (-2.0, 2.1850398632769275),
        (4.0, 1.1578212823497036),
        (1.5707963267297618, 1000000000000.0),
        (-1.5707963267297618, -1000000000000.0),
        (1.5707963267297629, 1000000000000.0),
        (1.5707963267948966, -15353066509.265085),
    ];
    for &(input, expected) in &cases {
        check("tan_approx", input, function_approximations::tan_approx(from_f64(input)), expected);
    }
}

#[test]
fn exp_approx_exact_values() {
    let cases: [(f64, f64); 19] = [
        (0.0, 1.0),
        (-0.0, 1.0),
        (1.0, 2.7182818284590446),
        (-1.0, 0.3678794411714424),
        (0.5, 1.648721270700128),
        (10.0, 22026.465794806725),
        (-10.0, 4.539992976248483e-05),
        (100.0, 2.688117141816139e+43),
        (-100.0, 3.7200759760208296e-44),
        (700.0, 1.0142320547350549e+304),
        (710.0, f64::INFINITY),
        (-745.0, 0.0),
        (-800.0, 0.0),
        (1e-10, 1.0000000001),
        (0.34657359027997264, 1.414213562373095),
        (f64::INFINITY, f64::INFINITY),
        (f64::NEG_INFINITY, f64::NAN),
        (10000000000.0, f64::INFINITY),
        (-10000000000.0, 0.0),
    ];
    for &(input, expected) in &cases {
        check("exp_approx", input, function_approximations::exp_approx(from_f64(input)), expected);
    }
}

#[test]
fn ln_approx_exact_values() {
    let cases: [(f64, f64); 17] = [
        (1.0, 0.0),
        (2.0, 0.6931471805599453),
        (0.5, -0.6931471805599451),
        (0.7, -0.35667494393873245),
        (1.5, 0.40546510810816444),
        (1.5000000000000002, 0.4054651081081645),
        (0.49999999999999994, -0.6931471805599454),
        (10.0, 2.3025850929940455),
        (1000000.0, 13.815510557964274),
        (1e-06, -13.815510557964274),
        (5e-324, -744.4400719213812),
        (1.7976931348623157e+308, 709.782712893384),
        (2.2250738585072014e-308, -708.3964185322641),
        (0.0, f64::NAN),
        (-0.0, f64::NAN),
        (-1.0, f64::NAN),
        (f64::NEG_INFINITY, f64::NAN),
    ];
    for &(input, expected) in &cases {
        check("ln_approx", input, function_approximations::ln_approx(from_f64(input)), expected);
    }
}

#[test]
fn sqrt_approx_exact_values() {
    let cases: [(f64, f64); 17] = [
        (0.0, 0.0),
        (-0.0, 0.0),
        (1.0, 1.0),
        (4.0, 2.0),
        (2.0, 1.414213562373095),
        (0.25, 0.5),
        (0.5, 0.7071067811865475),
        (9.0, 3.0),
        (1000000.0, 1000.0),
        (1e-06, 0.001),
        (1e+300, 4.76837158203125e+293),
        (1.7976931348623157e+308, 8.572068857490138e+301),
        (5e-324, 9.5367431640625e-07),
        (1e-300, 9.5367431640625e-07),
        (-1.0, f64::NAN),
        (-1e-320, f64::NAN),
        (f64::NEG_INFINITY, f64::NAN),
    ];
    for &(input, expected) in &cases {
        check("sqrt_approx", input, function_approximations::sqrt_approx(from_f64(input)), expected);
    }
}

#[test]
fn arctan_approx_exact_values() {
    let cases: [(f64, f64); 20] = [
        (0.0, 0.0),
        (-0.0, 0.0),
        (0.5, 0.46364760900080587),
        (-0.5, -0.46364760900080587),
        (0.66, 0.5833730069937426),
        (0.6600000000000001, 0.5833730069938561),
        (-0.66, -0.5833730069937426),
        (-0.6600000000000001, -0.5833730069938561),
        (1.0, 0.7853981633974483),
        (-1.0, -0.7853981633974483),
        (1.0000000000000002, 0.7853981633974484),
        (2.0, 1.1071487177940906),
        (-2.0, -1.1071487177940906),
        (10.0, 1.4711276743037345),
        (1e+300, 1.5707963267948966),
        (-1e+300, -1.5707963267948966),
        (f64::INFINITY, 1.5707963267948966),
        (f64::NEG_INFINITY, -1.5707963267948966),
        (1.5, 0.9827937232473292),
        (0.9, 0.7328151017865066),
    ];
    for &(input, expected) in &cases {
        check("arctan_approx", input, function_approximations::arctan_approx(from_f64(input)), expected);
    }
}

#[test]
fn sinh_approx_exact_values() {
    let cases: [(f64, f64); 11] = [
        (0.0, 0.0),
        (-0.0, -0.0),
        (0.5, 0.5210953054937474),
        (-0.5, -0.5210953054937474),
        (1.0, 1.1752011936438016),
        (2.0, 3.626860407847018),
        (-3.0, -10.017874927409903),
        (10.0, 11013.232874703399),
        (1e-300, 1e-300),
        (1e+200, f64::INFINITY),
        (f64::INFINITY, f64::INFINITY),
    ];
    for &(input, expected) in &cases {
        check("sinh_approx", input, function_approximations::sinh_approx(from_f64(input)), expected);
    }
}

#[test]
fn cosh_approx_exact_values() {
    let cases: [(f64, f64); 10] = [
        (0.0, 1.0),
        (0.5, 1.1276259652063807),
        (-0.5, 1.1276259652063807),
        (1.0, 1.543080634815244),
        (2.0, 3.762195691083632),
        (-3.0, 10.067661995777765),
        (10.0, 11013.23292010332),
        (1e-300, 1.0),
        (1e+200, f64::INFINITY),
        (f64::INFINITY, f64::INFINITY),
    ];
    for &(input, expected) in &cases {
        check("cosh_approx", input, function_approximations::cosh_approx(from_f64(input)), expected);
    }
}

#[test]
fn static_powi_exact_values() {
    let cases: [(f64, i32, f64); 29] = [
        (2.0, 0, 1.0),
        (0.0, 0, 1.0),
        (f64::NAN, 0, 1.0),
        (f64::INFINITY, 0, 1.0),
        (5.0, 1, 5.0),
        (3.0, -1, 0.3333333333333333),
        (1.0, 100, 1.0),
        (-2.0, 2, 4.0),
        (-2.0, 3, -8.0),
        (2.0, 10, 1024.0),
        (2.0, -10, 0.0009765625),
        (2.0, 1023, 8.98846567431158e+307),
        (2.0, 1024, f64::INFINITY),
        (2.0, -1022, 2.2250738585072014e-308),
        (2.0, -1074, 0.0),
        (2.0, -1075, 0.0),
        (0.1, 20, 1.0000000000000022e-20),
        (0.1, -20, 9.999999999999979e+19),
        (10.0, 20, 1e+20),
        (1.5, -7, 0.05852766346593507),
        (0.0, -1, f64::INFINITY),
        (-0.0, -1, f64::NEG_INFINITY),
        (-0.0, -3, f64::NEG_INFINITY),
        (2.0, 2147483647, f64::INFINITY),
        (0.5, 2147483647, 0.0),
        (1.0, -2147483648, 1.0),
        (2.0, -2147483648, 0.0),
        (0.5, -2147483648, f64::INFINITY),
        (1.0000000000000002, 2147483647, 1.0000004768372681),
    ];
    for &(base, exponent, expected) in &cases {
        let got = to_f64(function_approximations::static_powi(from_f64(base), exponent));
        if expected.is_nan() {
            assert!(got.is_nan(), "static_powi({:e}, {}) = {:e}", base, exponent, got);
        } else {
            assert_eq!(
                got.to_bits(),
                expected.to_bits(),
                "static_powi({:e}, {}) = {:e}, expected {:e}",
                base,
                exponent,
                got,
                expected
            );
        }
    }
}

#[test]
fn round_const_exact_values() {
    let cases: [(f64, f64); 21] = [
        (0.0, 0.0),
        (-0.0, 0.0),
        (0.4, 0.0),
        (0.5, 1.0),
        (0.49999999999999994, 1.0),
        (1.5, 2.0),
        (2.5, 3.0),
        (-0.4, 0.0),
        (-0.5, -1.0),
        (-1.5, -2.0),
        (-2.5, -3.0),
        (1000000000000000.0, 1000000000000000.0),
        (4503599627370497.0, 4503599627370498.0),
        (9007199254740992.0, 9007199254740992.0),
        (1e+19, 9.223372036854776e+18),
        (-1e+19, -9.223372036854776e+18),
        (9.223372036854775e+18, 9.223372036854775e+18),
        (f64::INFINITY, 9.223372036854776e+18),
        (f64::NEG_INFINITY, -9.223372036854776e+18),
        (f64::NAN, 0.0),
        (123456.789, 123457.0),
    ];
    for &(input, expected) in &cases {
        check("round_const", input, function_approximations::round_const(from_f64(input)), expected);
    }
}

#[test]
fn angle_reduction_exact_values() {
    let cases: [(f64, f64, f64, f64); 25] = [
        (0.0, 0.0, 0.0, 1.0),
        (1.0, 1.0, 1.0, 1.0),
        (-1.0, -1.0, -1.0, 1.0),
        (2.0, 1.1415926535897931, 1.1415926535897931, -1.0),
        (3.0, 0.14159265358979312, 0.14159265358979312, -1.0),
        (-3.0, -0.14159265358979312, -0.14159265358979312, -1.0),
        (3.2, -0.05840734641020706, -0.05840734641020706, -1.0),
        (-3.2, 0.05840734641020706, 0.05840734641020706, -1.0),
        (4.0, -0.8584073464102069, -0.8584073464102069, -1.0),
        (6.0, -0.28318530717958623, -0.28318530717958623, 1.0),
        (7.0, 0.7168146928204138, 0.7168146928204138, 1.0),
        (-7.0, -0.7168146928204138, -0.7168146928204138, 1.0),
        (100.0, -0.5309649148734152, -0.5309649148734152, 1.0),
        (-100.0, 0.5309649148734152, 0.5309649148734152, 1.0),
        (1000.5, 1.4735361584480842, 1.4735361584480842, 1.0),
        (1.5707963267948966, 1.5707963267948966, 1.5707963267948966, 1.0),
        (-1.5707963267948966, -1.5707963267948966, -1.5707963267948966, 1.0),
        (3.141592653589793, 0.0, 0.0, -1.0),
        (-3.141592653589793, 0.0, 0.0, -1.0),
        (1.5707963267948968, 1.5707963267948963, 1.5707963267948963, -1.0),
        (3.1415926535897936, -4.440892098500626e-16, -4.440892098500626e-16, -1.0),
        (1e+300, -1e+300, -1e+300, -1.0),
        (-1e+300, 1e+300, 1e+300, -1.0),
        (f64::INFINITY, f64::NEG_INFINITY, f64::NEG_INFINITY, -1.0),
        (f64::NEG_INFINITY, f64::INFINITY, f64::INFINITY, -1.0),
    ];
    for &(input, sine_angle, cosine_angle, sign) in &cases {
        let x = from_f64(input);
        check("reduce_angle_for_sine", input, function_approximations::reduce_angle_for_sine(x), sine_angle);
        let (angle, factor) = function_approximations::reduce_angle_for_cos(x);
        check("reduce_angle_for_cos", input, angle, cosine_angle);
        check("reduce_angle_for_cos", input, factor, sign);
    }
}
