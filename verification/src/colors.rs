//! From the light gathered for a pixel to the three bytes that are written.
use crate::convert::{lemma_ratio, lemma_whole, ratio, whole};
use crate::scalar::Scalar;
use crate::vectors::Color;
use vstd::arithmetic::power2::pow2;
use vstd::prelude::*;

verus! {

/// `x` brought into the interval from `min` to `max`: `min` where `x` is a
/// number below it, else `max` where `x` is a number above that, else `x`
/// itself. What is no number is passed through.
pub open spec fn spec_clamp(x: Scalar, min: Scalar, max: Scalar) -> Scalar {
    if x.spec_lt(min) {
        min
    } else if x.spec_gt(max) {
        max
    } else {
        x
    }
}

/// `x` brought into the interval from `min` to `max`. For a number `x` and
/// ends in their order the result lies between the ends.
pub fn clamp(x: Scalar, min: Scalar, max: Scalar) -> (r: Scalar)
    ensures
        r == spec_clamp(x, min, max),
        !x.nan() && min.spec_le(max) ==> min.spec_le(r) && r.spec_le(max),
        x.nan() ==> r == x,
{
    if x.lt(min) {
        min
    } else if x.gt(max) {
        max
    } else {
        x
    }
}

/// The pattern of the upper end of a channel: the single-precision number
/// nearest to 0.999.
pub const CHANNEL_MAX: u32 = 0x3f7f_be77;

/// The pattern of 256.
pub const LEVELS: u32 = 0x4380_0000;

/// The patterns written out in this file stand for the numbers that they
/// are said to be.
pub proof fn lemma_levels()
    ensures
        ratio(999, 1000) == (Scalar { bits: CHANNEL_MAX }),
        whole(256) == (Scalar { bits: LEVELS }),
{
    vstd::arithmetic::power2::lemma2_to64();
    vstd::arithmetic::power2::lemma2_to64_rest();
    lemma_ratio(999, 1000, 24, 16_760_438_784, 16_760_438, 784);
    vstd::arithmetic::power2::lemma_pow2_adds(23, 134);
    vstd::arithmetic::power2::lemma_pow2_adds(8, 149);
    crate::rounding::lemma_weight_pattern(134, 0x80_0000);
    assert(0x80_0000 * pow2(134) == 256 * pow2(149)) by (nonlinear_arith)
        requires
            pow2(23) * pow2(134) == pow2(157),
            pow2(8) * pow2(149) == pow2(157),
            pow2(23) == 0x80_0000,
            pow2(8) == 256,
    ;
    lemma_whole(256, LEVELS as int);
}

/// The byte of one channel. `sum` is the light gathered over all samples and
/// `scale` one over their number: the byte is the whole part of 256 times
/// the square root of their product, the root kept between 0 and 0.999.
pub open spec fn channel(sum: Scalar, scale: Scalar) -> u8 {
    let level = spec_clamp(sum.spec_mul(scale).spec_sqrt(), Scalar::spec_zero(), Scalar { bits: CHANNEL_MAX });
    Scalar { bits: LEVELS }.spec_mul(level).spec_to_u8()
}

/// The bytes of a pixel, given the light gathered for it: red, green and
/// blue.
pub open spec fn spec_pixel(pixels: Color, samples_per_pixel: u32) -> (u8, u8, u8) {
    let scale = Scalar::spec_one().spec_div(whole(samples_per_pixel as int));
    (channel(pixels.x, scale), channel(pixels.y, scale), channel(pixels.z, scale))
}

fn byte(sum: Scalar, scale: Scalar) -> (r: u8)
    ensures
        r == channel(sum, scale),
{
    let level = clamp(sum.mul(scale).sqrt(), Scalar::zero(), Scalar::from_bits(CHANNEL_MAX));
    Scalar::from_bits(LEVELS).mul(level).to_u8()
}

/// The bytes of a pixel: the light gathered over `samples_per_pixel`
/// samples is averaged, corrected for gamma by a square root, and cut down
/// to 256 levels.
pub fn pixel(pixels: Color, samples_per_pixel: u32) -> (rgb: (u8, u8, u8))
    ensures
        rgb == spec_pixel(pixels, samples_per_pixel),
{
    let scale = Scalar::one().div(Scalar::from_u32(samples_per_pixel));
    (byte(pixels.x, scale), byte(pixels.y, scale), byte(pixels.z, scale))
}

} // verus!
