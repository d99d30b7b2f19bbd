#[allow(unused_imports)]
use const_poly::Binary64;
#[allow(unused_imports)]
use const_poly::function_approximations::{ln_approx, static_powi};
#[allow(unused_imports)]
use const_poly::polynomial::Polynomial;
#[allow(unused_imports)]
use const_poly::term::{Term, VarFunction};

fn from_f64(x: f64) -> Binary64 {
    Binary64::from_bits(x.to_bits())
}

fn to_f64(x: Binary64) -> f64 {
    f64::from_bits(x.to_bits())
}

fn term(coefficient: f64, functions: &[VarFunction]) -> Term {
    Term::new(from_f64(coefficient), functions.to_vec())
}

fn values(vars: &[f64]) -> Vec<Binary64> {
    vars.iter().map(|x| from_f64(*x)).collect()
}

#[test]
fn three_times_the_sine_at_a_quarter_turn() {
    let t = term(3.0, &[VarFunction::Sin]);
    let got = to_f64(t.evaluate(&values(&[core::f64::consts::FRAC_PI_2])));
    assert!((got - 3.0).abs() < 1e-6, "{}", got);
}

#[test]
fn twice_the_square_of_two() {
    let t = term(2.0, &[VarFunction::Pow(2)]);
    let got = to_f64(t.evaluate(&values(&[2.0])));
    assert!((got - 8.0).abs() < 1e-9, "{}", got);
    assert_eq!(got, 8.0);
}

#[test]
fn the_square_root_of_four() {
    let t = term(1.0, &[VarFunction::Sqrt]);
    let got = to_f64(t.evaluate(&values(&[4.0])));
    assert!((got - 2.0).abs() < 1e-10, "{}", got);
}

#[test]
fn three_to_the_power_minus_one() {
    let got = to_f64(static_powi(from_f64(3.0), -1));
    assert!((got - 1.0 / 3.0).abs() < 1e-50, "{}", got);
}

#[test]
fn the_logarithm_of_two() {
    let got = to_f64(ln_approx(from_f64(2.0)));
    assert!((got - 0.6931471805599453).abs() < 1e-15, "{}", got);
}

#[test]
fn five_terms_of_powers_in_three_variables() {
    let p = Polynomial::new(vec![
        term(1.2, &[VarFunction::Pow(2), VarFunction::Pow(-1), VarFunction::Pow(0)]),
        term(-0.8, &[VarFunction::Pow(3), VarFunction::Pow(1), VarFunction::Pow(-2)]),
        term(2.5, &[VarFunction::Pow(-3), VarFunction::Pow(4), VarFunction::Pow(1)]),
        term(-1.1, &[VarFunction::Pow(0), VarFunction::Pow(-2), VarFunction::Pow(3)]),
        term(0.9, &[VarFunction::Pow(1), VarFunction::Pow(2), VarFunction::Pow(-1)]),
    ])
    .unwrap();
    let got = to_f64(p.evaluate(&values(&[2.0, 3.0, 0.5])));
    assert!((got - -30.159027778).abs() < 1e-9, "{}", got);
}
