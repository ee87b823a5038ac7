//! A recursive ray tracer for scenes of spheres, in single precision.
//!
//! Numbers are held by their bit patterns (`scalar`). Sums, differences,
//! products, quotients and square roots are computed on the patterns and
//! rounded to the nearest number that the format holds, the even one of two
//! equally near (`rounding`, `arith`, `convert`): every result is a stated
//! function of its operands, and so is everything built from them, from the
//! dot product (`vectors`) to the light that comes back along a ray
//! (`radiance`).
//!
//! A result that is no number always has the pattern `arith::QUIET`; apart
//! from that the results are those of the format, bit for bit.
//!
//! What depends on chance is drawn by the caller and handed in: the
//! candidates of a rejection, the draws of a path, the point on the lens,
//! the moment of a ray and the places of a scene. So is the tangent of half
//! the field of view.
pub mod arith;
pub mod camera;
pub mod colors;
pub mod convert;
pub mod hittable;
pub mod hittable_list;
pub mod materials;
pub mod moving_sphere;
pub mod order;
pub mod radiance;
pub mod rays;
pub mod rounding;
pub mod scalar;
pub mod scene;
pub mod sphere;
pub mod surface;
pub mod symmetry;
pub mod vectors;
