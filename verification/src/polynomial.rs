//! A polynomial: a sum of terms over the same variables.

use vstd::prelude::*;
use crate::float::binary64::Binary64;
use crate::float::constants::{constant, ZERO_BITS};
use crate::term::{Term, TermModel};

verus! {

/// Why a polynomial could not be built.
#[derive(Clone, Copy, Debug, PartialEq, Eq)]
pub enum ConstructionError {
    /// The term at `term` has `found` variables where the first term has
    /// `expected`.
    ArityMismatch { term: usize, expected: usize, found: usize },
}

/// What the terms are, one by one.
pub open spec fn models(terms: Seq<Term>) -> Seq<TermModel> {
    Seq::new(terms.len(), |i: int| terms[i]@)
}

/// Every term has `n` variables.
pub open spec fn same_arity(terms: Seq<TermModel>, n: nat) -> bool {
    forall|j: int| 0 <= j < terms.len() ==> (#[trigger] terms[j]).arity() == n
}

/// The number of variables that a sequence of terms declares: that of its
/// first term, and none where it is empty.
pub open spec fn declared_arity(terms: Seq<TermModel>) -> nat {
    if terms.len() == 0 {
        0
    } else {
        terms[0].arity()
    }
}

/// The values of the first `n` terms at `vars`, added to zero one after the
/// other from the first.
pub open spec fn sum_through(terms: Seq<TermModel>, vars: Seq<Binary64>, n: nat) -> Binary64
    decreases n,
{
    if n == 0 {
        constant(ZERO_BITS)
    } else {
        sum_through(terms, vars, (n - 1) as nat).add_spec(terms[n - 1].evaluate(vars))
    }
}

/// A sum with a term that is not a number is not a number.
pub proof fn lemma_sum_nan(terms: Seq<TermModel>, vars: Seq<Binary64>, n: nat)
    requires
        exists|j: int| 0 <= j < n && (#[trigger] terms[j]).evaluate(vars).is_nan(),
    ensures
        sum_through(terms, vars, n).is_nan(),
    decreases n,
{
    if n > 0 && !terms[n - 1].evaluate(vars).is_nan() {
        lemma_sum_nan(terms, vars, (n - 1) as nat);
    }
}

/// What a polynomial is: a number of variables and terms in order.
pub struct PolynomialModel {
    pub arity: nat,
    pub terms: Seq<TermModel>,
}

impl PolynomialModel {
    /// Every term has as many variables as the polynomial.
    pub open spec fn well_formed(self) -> bool {
        same_arity(self.terms, self.arity)
    }

    /// The value of the polynomial at `vars`.
    pub open spec fn evaluate(self, vars: Seq<Binary64>) -> Binary64
        recommends
            vars.len() == self.arity,
    {
        sum_through(self.terms, vars, self.terms.len())
    }

    /// Some term is not a number at `vars`.
    pub open spec fn has_nan(self, vars: Seq<Binary64>) -> bool {
        exists|j: int| 0 <= j < self.terms.len() && (#[trigger] self.terms[j]).evaluate(
            vars,
        ).is_nan()
    }
}

/// Terms over the same variables.
pub struct Polynomial {
    num_variables: usize,
    terms: Vec<Term>,
}

impl View for Polynomial {
    type V = PolynomialModel;

    closed spec fn view(&self) -> PolynomialModel {
        PolynomialModel { arity: self.num_variables as nat, terms: models(self.terms@) }
    }
}

impl Polynomial {
    #[verifier::type_invariant]
    spec fn type_inv(self) -> bool {
        self@.well_formed()
    }

    /// The polynomial of the given terms. The first term fixes the number of
    /// variables; the first term that has another number is reported, and
    /// then no polynomial is built.
    pub fn new(terms: Vec<Term>) -> (r: Result<Polynomial, ConstructionError>)
        ensures
            r is Ok <==> same_arity(models(terms@), declared_arity(models(terms@))),
            r matches Ok(p) ==> p@.terms == models(terms@) && p@.arity == declared_arity(
                models(terms@),
            ) && p@.well_formed(),
            r matches Err(ConstructionError::ArityMismatch { term, expected, found }) ==> {
                &&& term < terms@.len()
                &&& expected == declared_arity(models(terms@))
                &&& found == terms@[term as int]@.arity()
                &&& found != expected
                &&& same_arity(models(terms@).take(term as int), expected as nat)
            },
    {
        let count: usize = terms.len();
        if count == 0 {
            return Ok(Polynomial { num_variables: 0, terms });
        }
        let expected: usize = terms[0].num_variables();
        let mut i: usize = 1;
        while i < count
            invariant
                1 <= i <= count,
                count == terms@.len(),
                expected == terms@[0]@.arity(),
                same_arity(models(terms@).take(i as int), expected as nat),
            decreases count - i,
        {
            let found: usize = terms[i].num_variables();
            if found != expected {
                proof {
                    assert(models(terms@)[i as int].arity() == found);
                }
                return Err(ConstructionError::ArityMismatch { term: i, expected, found });
            }
            proof {
                assert forall|j: int| 0 <= j < i + 1 implies (#[trigger] models(terms@).take(
                    i + 1,
                )[j]).arity() == expected by {}
            }
            i = i + 1;
        }
        proof {
            assert(models(terms@).take(count as int) =~= models(terms@));
        }
        Ok(Polynomial { num_variables: expected, terms })
    }

    /// The number of variables.
    pub fn num_variables(&self) -> (r: usize)
        ensures
            r == self@.arity,
    {
        self.num_variables
    }

    /// The sum of the terms at `vars`, added from the first term to the last.
    pub fn evaluate(&self, vars: &[Binary64]) -> (r: Binary64)
        requires
            vars@.len() == self@.arity,
        ensures
            r == self@.evaluate(vars@),
            self@.has_nan(vars@) ==> r.is_nan(),
    {
        proof {
            use_type_invariant(self);
            if self@.has_nan(vars@) {
                lemma_sum_nan(self@.terms, vars@, self@.terms.len());
            }
        }
        let mut sum = Binary64::from_bits(ZERO_BITS);
        let mut i: usize = 0;
        let n: usize = self.terms.len();
        while i < n
            invariant
                i <= n,
                n == self.terms@.len(),
                vars@.len() == self@.arity,
                self@.well_formed(),
                sum == sum_through(self@.terms, vars@, i as nat),
            decreases n - i,
        {
            proof {
                assert(self@.terms[i as int] == self.terms@[i as int]@);
            }
            sum = sum.add(self.terms[i].evaluate(vars));
            i = i + 1;
        }
        sum
    }

    /// The value of a polynomial in one variable at `x`.
    pub fn evaluate_scalar(&self, x: Binary64) -> (r: Binary64)
        requires
            self@.arity == 1,
        ensures
            r == self@.evaluate(seq![x]),
    {
        let mut vars: Vec<Binary64> = Vec::new();
        vars.push(x);
        self.evaluate(vars.as_slice())
    }
}

} // verus!
