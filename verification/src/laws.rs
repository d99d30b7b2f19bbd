//! What holds of the functions for every input.
//!
//! `domain` says where the square root and the logarithm are numbers,
//! `totality` does the same for the other functions, `reduction` that the
//! range reductions end in range, `exponential` that the exponential takes
//! its series at a small remainder, `powers` that powers of two are exact,
//! and `linearity` how a term follows its coefficient.

pub mod domain;
pub mod reduction;
pub mod linearity;
pub mod totality;
pub mod powers;
pub mod exponential;
