//! IEEE 754 binary64 in integer arithmetic.
//!
//! `pattern` says what the bits of a magnitude stand for and `rounding` what
//! the nearest pattern to an exact result is. `pack` rounds exact quotients;
//! `binary64`, `sum`, `product` and `convert` build the type, its comparisons,
//! its arithmetic and its conversions on them, each with the rounding of the
//! exact result as its contract. `constants` names the values that the
//! library uses; `signs`, `bounds` and `exact` hold what the laws need of the
//! arithmetic: which results are numbers, how large they are, and when
//! nothing is rounded.

pub mod pattern;
pub mod rounding;
pub mod pack;
pub mod binary64;
pub mod sum;
pub mod product;
pub mod convert;
pub mod constants;
pub mod signs;
pub mod bounds;
pub mod exact;
