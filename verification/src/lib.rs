//! Elementary functions by series arithmetic, and terms and polynomials built
//! on them.
//!
//! Every value is an IEEE 754 binary64 number held as its bits, and every
//! operation on it is integer arithmetic, proved to give the rounding to
//! nearest of the exact result. The functions need neither a floating-point
//! unit nor a mathematics library, and return the same bits everywhere.

pub mod float;
pub mod function_approximations;
pub mod term;
pub mod polynomial;
pub mod laws;

pub use crate::float::binary64::Binary64;
pub use crate::polynomial::{ConstructionError, Polynomial, PolynomialModel};
pub use crate::term::{Term, TermModel, VarFunction};
