//! A term: a coefficient times one function of each variable.

use vstd::prelude::*;
use crate::float::binary64::Binary64;
use crate::function_approximations::{
    sin_approx,
    cos_approx,
    tan_approx,
    exp_approx,
    ln_approx,
    sqrt_approx,
    arctan_approx,
    sinh_approx,
    cosh_approx,
    static_powi,
    sin_approx_spec,
    cos_approx_spec,
    tan_approx_spec,
    exp_approx_spec,
    ln_approx_spec,
    sqrt_approx_spec,
    arctan_approx_spec,
    sinh_approx_spec,
    cosh_approx_spec,
    static_powi_spec,
};

verus! {

/// The function that a term applies to one of its variables.
#[derive(Clone, Copy, Debug)]
pub enum VarFunction {
    /// The variable itself.
    Identity,
    /// The variable to an integer power.
    Pow(i32),
    /// The sine.
    Sin,
    /// The cosine.
    Cos,
    /// The tangent.
    Tan,
    /// The exponential.
    Exp,
    /// The natural logarithm.
    Ln,
    /// The square root.
    Sqrt,
    /// The arctangent.
    Arctan,
    /// The hyperbolic sine.
    Sinh,
    /// The hyperbolic cosine.
    Cosh,
}

impl VarFunction {
    /// The value of the function at `x`.
    pub open spec fn apply_spec(self, x: Binary64) -> Binary64 {
        match self {
            VarFunction::Identity => x,
            VarFunction::Pow(exponent) => static_powi_spec(x, exponent as int),
            VarFunction::Sin => sin_approx_spec(x),
            VarFunction::Cos => cos_approx_spec(x),
            VarFunction::Tan => tan_approx_spec(x),
            VarFunction::Exp => exp_approx_spec(x),
            VarFunction::Ln => ln_approx_spec(x),
            VarFunction::Sqrt => sqrt_approx_spec(x),
            VarFunction::Arctan => arctan_approx_spec(x),
            VarFunction::Sinh => sinh_approx_spec(x),
            VarFunction::Cosh => cosh_approx_spec(x),
        }
    }

    /// Applies the function to `x`.
    pub fn apply(self, x: Binary64) -> (r: Binary64)
        ensures
            r == self.apply_spec(x),
    {
        match self {
            VarFunction::Identity => x,
            VarFunction::Pow(exponent) => static_powi(x, exponent),
            VarFunction::Sin => sin_approx(x),
            VarFunction::Cos => cos_approx(x),
            VarFunction::Tan => tan_approx(x),
            VarFunction::Exp => exp_approx(x),
            VarFunction::Ln => ln_approx(x),
            VarFunction::Sqrt => sqrt_approx(x),
            VarFunction::Arctan => arctan_approx(x),
            VarFunction::Sinh => sinh_approx(x),
            VarFunction::Cosh => cosh_approx(x),
        }
    }
}

/// The coefficient times the functions of the first `n` variables, multiplied
/// in one after the other from the first.
pub open spec fn product_through(
    coefficient: Binary64,
    functions: Seq<VarFunction>,
    vars: Seq<Binary64>,
    n: nat,
) -> Binary64
    decreases n,
{
    if n == 0 {
        coefficient
    } else {
        product_through(coefficient, functions, vars, (n - 1) as nat).mul_spec(
            functions[n - 1].apply_spec(vars[n - 1]),
        )
    }
}

/// A product with a factor that is not a number is not a number: once the
/// coefficient or the function of a variable among the first `n` is none, the
/// product through them is none.
pub proof fn lemma_product_nan(
    coefficient: Binary64,
    functions: Seq<VarFunction>,
    vars: Seq<Binary64>,
    n: nat,
)
    requires
        coefficient.is_nan() || exists|i: int|
            0 <= i < n && (#[trigger] functions[i]).apply_spec(vars[i]).is_nan(),
    ensures
        product_through(coefficient, functions, vars, n).is_nan(),
    decreases n,
{
    if n > 0 && !functions[n - 1].apply_spec(vars[n - 1]).is_nan() {
        lemma_product_nan(coefficient, functions, vars, (n - 1) as nat);
    }
}

/// What a term is: a coefficient and one function for each variable.
pub struct TermModel {
    pub coefficient: Binary64,
    pub functions: Seq<VarFunction>,
}

impl TermModel {
    /// The number of variables.
    pub open spec fn arity(self) -> nat {
        self.functions.len()
    }

    /// The value of the term at `vars`.
    pub open spec fn evaluate(self, vars: Seq<Binary64>) -> Binary64
        recommends
            vars.len() == self.arity(),
    {
        product_through(self.coefficient, self.functions, vars, self.arity())
    }

    /// The coefficient, or the function of some variable at its value, is
    /// not a number.
    pub open spec fn has_nan(self, vars: Seq<Binary64>) -> bool {
        self.coefficient.is_nan() || exists|i: int|
            0 <= i < self.arity() && (#[trigger] self.functions[i]).apply_spec(vars[i]).is_nan()
    }
}

/// A coefficient and one function for each variable.
pub struct Term {
    coefficient: Binary64,
    functions: Vec<VarFunction>,
}

impl View for Term {
    type V = TermModel;

    closed spec fn view(&self) -> TermModel {
        TermModel { coefficient: self.coefficient, functions: self.functions@ }
    }
}

impl Term {
    /// The term with the given coefficient and functions.
    pub fn new(coefficient: Binary64, functions: Vec<VarFunction>) -> (r: Term)
        ensures
            r@ == (TermModel { coefficient, functions: functions@ }),
    {
        Term { coefficient, functions }
    }

    /// The number of variables.
    pub fn num_variables(&self) -> (r: usize)
        ensures
            r == self@.arity(),
    {
        self.functions.len()
    }

    /// The coefficient times each function at its variable, multiplied in
    /// from the first variable to the last.
    pub fn evaluate(&self, vars: &[Binary64]) -> (r: Binary64)
        requires
            vars@.len() == self@.arity(),
        ensures
            r == self@.evaluate(vars@),
            self@.has_nan(vars@) ==> r.is_nan(),
    {
        proof {
            if self@.has_nan(vars@) {
                lemma_product_nan(self@.coefficient, self@.functions, vars@, self@.arity());
            }
        }
        let mut result = self.coefficient;
        let mut i: usize = 0;
        let n: usize = self.functions.len();
        while i < n
            invariant
                i <= n,
                n == self.functions@.len(),
                n == vars@.len(),
                result == product_through(self.coefficient, self.functions@, vars@, i as nat),
            decreases n - i,
        {
            let value = self.functions[i].apply(vars[i]);
            result = result.mul(value);
            i = i + 1;
        }
        result
    }
}

} // verus!
