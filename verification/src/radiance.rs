//! The light that travels back along a ray.
use crate::convert::{lemma_ratio, lemma_whole, ratio, whole};
use crate::hittable::Hittable;
use crate::materials::Draw;
use crate::rays::Ray;
use crate::scalar::Scalar;
use crate::vectors::{Color, Vector3};
use vstd::prelude::*;

verus! {

/// The pattern of the lower end of the interval in which meetings count: the
/// single-precision number nearest to a thousandth. A ray that starts on a
/// surface does not meet that surface again at its own start.
pub const T_MIN: u32 = 0x3a83_126f;

/// The colour of the sky straight ahead, where the gradient starts: white.
pub open spec fn spec_white() -> Color {
    Vector3::spec_fromv(Scalar::spec_one())
}

/// The colour of the sky overhead, where the gradient ends: the
/// single-precision numbers nearest to 0.5, 0.7 and 1.
pub open spec fn spec_sky_blue() -> Color {
    Vector3 { x: Scalar { bits: 0x3f00_0000 }, y: Scalar { bits: 0x3f33_3333 }, z: Scalar { bits: 0x3f80_0000 } }
}

/// The light of the sky along a ray that meets nothing: with `t` half of
/// one more than the height of the direction brought to length one,
/// `(1 - t) white + t sky blue`.
pub open spec fn sky(r: Ray) -> Color {
    let unit_direction = r.direction.spec_normalized();
    let t = unit_direction.y.spec_add(Scalar::spec_one()).spec_mul(Scalar::spec_half());
    Vector3::spec_times(Scalar::spec_one().spec_sub(t), spec_white()).spec_add(
        Vector3::spec_times(t, spec_sky_blue()),
    )
}

/// The light that comes back along the ray `r` from the scene `world`, with
/// `depth` bounces allowed, where chance contributes `draws[from]` to the
/// first scattering, `draws[from + 1]` to the second and so on.
///
/// With no bounce allowed there is no light. A ray that meets nothing
/// between a thousandth and infinity sees the sky. A ray that meets a
/// surface is scattered by its material: if it is absorbed there is no
/// light, else the light of the scattered ray, with one bounce less, times
/// the attenuation of the material.
pub open spec fn radiance<W: Hittable>(r: Ray, world: W, depth: nat, draws: Seq<Draw>, from: int) -> Color
    decreases depth,
{
    if depth == 0 {
        Vector3::spec_zeros()
    } else {
        match world.hit_spec(r, Scalar { bits: T_MIN }, Scalar::spec_infinity()) {
            Some(rec) => {
                let scatter_ray = rec.mat.scatter_ray(r, rec, draws[from]);
                if rec.mat.continues(rec, scatter_ray) {
                    rec.mat.attenuation().spec_mul(radiance(scatter_ray, world, (depth - 1) as nat, draws, from + 1))
                } else {
                    Vector3::spec_zeros()
                }
            },
            None => sky(r),
        }
    }
}

/// The patterns written out in this file stand for the numbers that they
/// are said to be: a thousandth, and the 0.5 and 0.7 of sky blue.
pub proof fn lemma_decimals()
    ensures
        ratio(1, 1000) == (Scalar { bits: T_MIN }),
        ratio(5, 10) == spec_sky_blue().x,
        ratio(7, 10) == spec_sky_blue().y,
        whole(1) == spec_sky_blue().z,
{
    vstd::arithmetic::power2::lemma2_to64();
    vstd::arithmetic::power2::lemma2_to64_rest();
    lemma_ratio(1, 1000, 33, 0x2_0000_0000, 8_589_934, 592);
    lemma_ratio(5, 10, 24, 0x500_0000, 0x80_0000, 0);
    lemma_ratio(7, 10, 24, 0x700_0000, 11_744_051, 2);
    vstd::arithmetic::power2::lemma_pow2_adds(23, 126);
    crate::rounding::lemma_weight_pattern(126, 0x80_0000);
    lemma_whole(1, 0x3f80_0000);
}

/// The interval of the ray's parameter in which meetings count: from a
/// thousandth to infinity, both ends left out.
pub fn interval() -> (ends: (Scalar, Scalar))
    ensures
        ends.0.bits == T_MIN,
        ends.1 == Scalar::spec_infinity(),
{
    (Scalar::from_bits(T_MIN), Scalar::infinity())
}

/// White, where the gradient of the sky starts.
pub fn white() -> (c: Color)
    ensures
        c == spec_white(),
{
    Color::fromv(Scalar::one())
}

/// Sky blue, where the gradient of the sky ends.
pub fn sky_blue() -> (c: Color)
    ensures
        c == spec_sky_blue(),
{
    Color::new(Scalar::from_bits(0x3f00_0000), Scalar::from_bits(0x3f33_3333), Scalar::from_bits(0x3f80_0000))
}

/// The light of the sky along a ray that meets nothing: a gradient from
/// white straight ahead to sky blue overhead.
pub fn background(r: &Ray) -> (c: Color)
    ensures
        c == sky(*r),
{
    let unit_direction = r.direction.normalized();
    let t = unit_direction.y.add(Scalar::one()).mul(Scalar::half());
    Vector3::times(Scalar::one().sub(t), white()).add(Vector3::times(t, sky_blue()))
}

fn coloray_from<W: Hittable>(r: &Ray, world: &W, depth: u8, draws: &Vec<Draw>, from: usize) -> (c: Color)
    requires
        from + depth <= draws.len(),
    ensures
        c == radiance(*r, *world, depth as nat, draws@, from as int),
    decreases depth,
{
    if depth == 0 {
        return Color::zeros();
    }
    let ends = interval();
    match world.hit(r, ends.0, ends.1) {
        Some(rec) => {
            let attenuation = rec.mat.get_attenuation();
            let scatter_ray = rec.mat.get_scatter_ray(r, &rec, &draws[from]);
            if rec.mat.scatter(&rec, &scatter_ray) {
                attenuation.mul(coloray_from(&scatter_ray, world, depth - 1, draws, from + 1))
            } else {
                Color::zeros()
            }
        },
        None => background(r),
    }
}

/// The light that comes back along the ray `r` from the scene `world`, with
/// `depth` bounces allowed. `draws` holds what chance contributes to each
/// scattering in turn, as many as there are bounces allowed.
///
/// With no bounce allowed the light is black, whatever the scene holds.
pub fn coloray<W: Hittable>(r: &Ray, world: &W, depth: u8, draws: &Vec<Draw>) -> (c: Color)
    requires
        draws.len() >= depth,
    ensures
        c == radiance(*r, *world, depth as nat, draws@, 0),
        depth == 0 ==> c == Vector3::spec_zeros(),
{
    coloray_from(r, world, depth, draws, 0)
}

/// Tracing again changes nothing: two results for one ray, one scene, one
/// depth and the same draws are the same colour, bit for bit.
pub proof fn lemma_coloray_repeats<W: Hittable>(
    r: &Ray,
    world: &W,
    depth: u8,
    draws: &Vec<Draw>,
    first: Color,
    second: Color,
)
    requires
        call_ensures(coloray::<W>, (r, world, depth, draws), first),
        call_ensures(coloray::<W>, (r, world, depth, draws), second),
    ensures
        first == second,
{
}

} // verus!
