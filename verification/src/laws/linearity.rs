//! How the value of a term follows its coefficient.
//!
//! Every product is rounded, so a term does not follow its coefficient by
//! every factor. It does by minus one, and by two and by a half as long as
//! no product on the way comes near the ends of the normal range.

use vstd::prelude::*;
use vstd::arithmetic::power2::{pow2, lemma_pow2_pos};
use crate::float::pattern::{HIDDEN_BIT, INFINITY_PATTERN};
use crate::float::rounding::{lemma_floor_exists, lemma_round_congruent};
use crate::float::signs::lemma_round_in_range;
use crate::float::binary64::Binary64;
use crate::float::constants::{constant, HALF_BITS, TWO_BITS};
use crate::float::exact::{
    lemma_mul_commutes,
    lemma_double_exact,
    lemma_half_exact,
    lemma_pattern_doubled,
    lemma_round_doubles,
    lemma_round_halves,
};
use crate::term::{TermModel, VarFunction, product_through};

verus! {

/// Both are not-a-number, or the two are the same value.
pub open spec fn same_number(a: Binary64, b: Binary64) -> bool {
    (a.is_nan() && b.is_nan()) || a == b
}

/// Negating a factor negates the product.
pub proof fn lemma_mul_negated(a: Binary64, b: Binary64)
    ensures
        same_number(a.neg_spec().mul_spec(b), a.mul_spec(b).neg_spec()),
{
    lemma_pow2_pos(1074);
    lemma_round_in_range(a.magnitude() * b.magnitude(), pow2(1074));
}

/// A term whose coefficient is negated has its value negated, at every
/// number of variables taken in.
pub proof fn lemma_product_negated(
    coefficient: Binary64,
    functions: Seq<VarFunction>,
    vars: Seq<Binary64>,
    n: nat,
)
    ensures
        same_number(
            product_through(coefficient.neg_spec(), functions, vars, n),
            product_through(coefficient, functions, vars, n).neg_spec(),
        ),
    decreases n,
{
    if n > 0 {
        lemma_product_negated(coefficient, functions, vars, (n - 1) as nat);
        let before = product_through(coefficient, functions, vars, (n - 1) as nat);
        lemma_mul_negated(before, functions[n - 1].apply_spec(vars[n - 1]));
    }
}

/// Scaling the coefficient of a term by minus one scales its value by minus
/// one: the two values are negatives of each other, or neither is a number.
pub proof fn lemma_term_negation(t: TermModel, negated: TermModel, vars: Seq<Binary64>)
    requires
        negated.coefficient == t.coefficient.neg_spec(),
        negated.functions == t.functions,
    ensures
        same_number(negated.evaluate(vars), t.evaluate(vars).neg_spec()),
{
    lemma_product_negated(t.coefficient, t.functions, vars, t.arity());
}

/// The value is a number at least two exponents inside the normal range at
/// either end: it can be doubled and halved without rounding.
pub open spec fn has_room(a: Binary64) -> bool {
    2 * HIDDEN_BIT < a.pattern() < INFINITY_PATTERN - 2 * HIDDEN_BIT
}

/// The factor is two or a half.
pub open spec fn is_step(scale: Binary64) -> bool {
    scale == constant(TWO_BITS) || scale == constant(HALF_BITS)
}

/// Where a product has room, doubling or halving a factor with room doubles
/// or halves the product.
pub proof fn lemma_mul_stepped(scale: Binary64, a: Binary64, b: Binary64)
    requires
        is_step(scale),
        has_room(a),
        has_room(a.mul_spec(b)),
    ensures
        scale.mul_spec(a).mul_spec(b) == scale.mul_spec(a.mul_spec(b)),
{
    let product = a.mul_spec(b);
    let n = a.magnitude() * b.magnitude();
    let d = pow2(1074);
    lemma_pow2_pos(1074);
    lemma_mul_commutes(scale, a);
    lemma_mul_commutes(scale, product);
    lemma_round_in_range(n, d);
    lemma_floor_exists(n, d);
    if scale == constant(TWO_BITS) {
        lemma_double_exact(a);
        lemma_double_exact(product);
        assert((2 * a.magnitude()) * b.magnitude() == 2 * n) by (nonlinear_arith)
            requires
                n == a.magnitude() * b.magnitude(),
        ;
        lemma_round_doubles(n, d);
    } else {
        let half = a.mul_spec(scale);
        lemma_half_exact(a);
        lemma_half_exact(product);
        lemma_pattern_doubled(half.pattern());
        let m = half.magnitude() * b.magnitude();
        assert(m * (2 * d) == n * d) by (nonlinear_arith)
            requires
                a.magnitude() == 2 * half.magnitude(),
                m == half.magnitude() * b.magnitude(),
                n == a.magnitude() * b.magnitude(),
        ;
        lemma_round_congruent(m, d, n, 2 * d);
        lemma_round_halves(n, d);
    }
}

/// Every product on the way to the first `n` variables has room.
pub open spec fn products_have_room(
    coefficient: Binary64,
    functions: Seq<VarFunction>,
    vars: Seq<Binary64>,
    n: nat,
) -> bool {
    forall|i: nat| i <= n ==> has_room(#[trigger] product_through(coefficient, functions, vars, i))
}

/// A term whose coefficient is doubled or halved has its value doubled or
/// halved, as long as every product on the way has room.
pub proof fn lemma_product_stepped(
    scale: Binary64,
    coefficient: Binary64,
    functions: Seq<VarFunction>,
    vars: Seq<Binary64>,
    n: nat,
)
    requires
        is_step(scale),
        products_have_room(coefficient, functions, vars, n),
    ensures
        product_through(scale.mul_spec(coefficient), functions, vars, n) == scale.mul_spec(
            product_through(coefficient, functions, vars, n),
        ),
    decreases n,
{
    if n > 0 {
        let before = product_through(coefficient, functions, vars, (n - 1) as nat);
        assert(has_room(product_through(coefficient, functions, vars, n)));
        assert forall|i: nat| i <= n - 1 implies has_room(
            #[trigger] product_through(coefficient, functions, vars, i),
        ) by {}
        lemma_product_stepped(scale, coefficient, functions, vars, (n - 1) as nat);
        lemma_mul_stepped(scale, before, functions[n - 1].apply_spec(vars[n - 1]));
    }
}

/// Scaling the coefficient of a term by two or by a half scales its value
/// by exactly as much, as long as the coefficient and every product on the
/// way to the value have room. Scalings by other powers of two are these,
/// taken one after the other.
pub proof fn lemma_term_scaling(
    scale: Binary64,
    t: TermModel,
    scaled: TermModel,
    vars: Seq<Binary64>,
)
    requires
        is_step(scale),
        scaled.coefficient == scale.mul_spec(t.coefficient),
        scaled.functions == t.functions,
        products_have_room(t.coefficient, t.functions, vars, t.arity()),
    ensures
        scaled.evaluate(vars) == scale.mul_spec(t.evaluate(vars)),
{
    lemma_product_stepped(scale, t.coefficient, t.functions, vars, t.arity());
}

} // verus!
