//! The values that the library names by their bits.

use vstd::prelude::*;
use vstd::arithmetic::power2::{
    pow2,
    lemma_pow2_adds,
    lemma_pow2_unfold,
    lemma2_to64,
    lemma2_to64_rest,
};
use crate::float::pattern::HIDDEN_BIT;
use crate::float::pack::{lemma_pow2_128, lemma_fraction_pattern};
use crate::float::rounding::round_nearest_even;
use crate::float::binary64::Binary64;

verus! {

/// The bits of zero.
pub const ZERO_BITS: u64 = 0;

/// The bits of a half, 0.5.
pub const HALF_BITS: u64 = 0x3FE0_0000_0000_0000;

/// The bits of one.
pub const ONE_BITS: u64 = 0x3FF0_0000_0000_0000;

/// The bits of minus one.
pub const NEG_ONE_BITS: u64 = 0xBFF0_0000_0000_0000;

/// The bits of one and a half, 1.5.
pub const THREE_HALVES_BITS: u64 = 0x3FF8_0000_0000_0000;

/// The bits of two.
pub const TWO_BITS: u64 = 0x4000_0000_0000_0000;

/// The bits of pi, 3.141592653589793.
pub const PI_BITS: u64 = 0x4009_21FB_5444_2D18;

/// The bits of minus pi.
pub const NEG_PI_BITS: u64 = 0xC009_21FB_5444_2D18;

/// The bits of half of pi, 1.5707963267948966.
pub const HALF_PI_BITS: u64 = 0x3FF9_21FB_5444_2D18;

/// The bits of minus half of pi.
pub const NEG_HALF_PI_BITS: u64 = 0xBFF9_21FB_5444_2D18;

/// The bits of twice pi, 6.283185307179586.
pub const TWO_PI_BITS: u64 = 0x4019_21FB_5444_2D18;

/// The bits of a quarter of pi, 0.7853981633974483.
pub const QUARTER_PI_BITS: u64 = 0x3FE9_21FB_5444_2D18;

/// The bits of minus a quarter of pi.
pub const NEG_QUARTER_PI_BITS: u64 = 0xBFE9_21FB_5444_2D18;

/// The bits of the natural logarithm of two, 0.6931471805599453.
pub const LN_2_BITS: u64 = 0x3FE6_2E42_FEFA_39EF;

/// The bits of 0.66, beyond which the arctangent is taken around one.
pub const NEAR_ONE_BITS: u64 = 0x3FE5_1EB8_51EB_851F;

/// The bits of -0.66.
pub const NEG_NEAR_ONE_BITS: u64 = 0xBFE5_1EB8_51EB_851F;

/// The bits of 1e-12, below which a cosine counts as zero.
pub const TINY_BITS: u64 = 0x3D71_9799_812D_EA11;

/// The bits of 1e12, which stands for the tangent at its poles.
pub const HUGE_BITS: u64 = 0x426D_1A94_A200_0000;

/// The bits of -1e12.
pub const NEG_HUGE_BITS: u64 = 0xC26D_1A94_A200_0000;

/// The value with the given bits.
pub open spec fn constant(bits: u64) -> Binary64 {
    Binary64 { bits }
}

/// The magnitudes of a half, one, one and a half and two.
pub proof fn lemma_constant_magnitudes()
    ensures
        constant(HALF_BITS).magnitude() == pow2(1073),
        constant(ONE_BITS).magnitude() == pow2(1074),
        constant(THREE_HALVES_BITS).magnitude() == 3 * pow2(1073),
        constant(TWO_BITS).magnitude() == pow2(1075),
        pow2(1074) == 2 * pow2(1073),
        pow2(1075) == 4 * pow2(1073),
{
    lemma_pow2_128();
    lemma_pow2_adds(52, 1021);
    lemma_pow2_adds(52, 1022);
    lemma_pow2_adds(52, 1023);
    lemma_pow2_adds(51, 1022);
    lemma_pow2_unfold(52);
    lemma_pow2_unfold(1074);
    lemma_pow2_unfold(1075);
    let w = pow2(1022);
    assert((HIDDEN_BIT + HIDDEN_BIT / 2) * w == 3 * (pow2(51) * w)) by (nonlinear_arith)
        requires
            HIDDEN_BIT == 2 * pow2(51),
    ;
}

/// The named bits are the roundings of the decimal numbers in their names:
/// each is what long division of the number gives, rounded to nearest.
pub proof fn lemma_decimal_values()
    ensures
        PI_BITS == round_nearest_even(3141592653589793 * pow2(1074), 1000000000000000),
        HALF_PI_BITS == round_nearest_even(15707963267948966 * pow2(1074), 10000000000000000),
        TWO_PI_BITS == round_nearest_even(6283185307179586 * pow2(1074), 1000000000000000),
        QUARTER_PI_BITS == round_nearest_even(
            7853981633974483 * pow2(1074),
            10000000000000000,
        ),
        LN_2_BITS == round_nearest_even(6931471805599453 * pow2(1074), 10000000000000000),
        NEAR_ONE_BITS == round_nearest_even(66 * pow2(1074), 100),
        TINY_BITS == round_nearest_even(1 * pow2(1074), 1000000000000),
        HUGE_BITS == round_nearest_even(1000000000000 * pow2(1074), 1),
        HALF_BITS == round_nearest_even(1 * pow2(1074), 2),
        ONE_BITS == round_nearest_even(1 * pow2(1074), 1),
        THREE_HALVES_BITS == round_nearest_even(3 * pow2(1074), 2),
        TWO_BITS == round_nearest_even(2 * pow2(1074), 1),
{
    lemma2_to64();
    lemma2_to64_rest();
    lemma_pow2_adds(64, 28);
    lemma_fraction_pattern(
        3141592653589793,
        1000000000000000,
        51,
        7074237752028439,
        738795807473664,
    );
    lemma_fraction_pattern(
        15707963267948966,
        10000000000000000,
        52,
        7074237752028440,
        1891557702107136,
    );
    lemma_fraction_pattern(
        6283185307179586,
        1000000000000000,
        50,
        7074237752028439,
        738795807473664,
    );
    lemma_fraction_pattern(
        7853981633974483,
        10000000000000000,
        53,
        7074237752028440,
        1891557702107136,
    );
    lemma_fraction_pattern(
        6931471805599453,
        10000000000000000,
        53,
        6243314768165359,
        1240582811877376,
    );
    lemma_fraction_pattern(66, 100, 53, 5944751508129054, 72);
    lemma_fraction_pattern(1, 1000000000000, 92, 4951760157141521, 99596496896);
    lemma_fraction_pattern(1000000000000, 1, 13, 8192000000000000, 0);
    lemma_fraction_pattern(1, 2, 53, 4503599627370496, 0);
    lemma_fraction_pattern(1, 1, 52, 4503599627370496, 0);
    lemma_fraction_pattern(3, 2, 52, 6755399441055744, 0);
    lemma_fraction_pattern(2, 1, 51, 4503599627370496, 0);
}

} // verus!
