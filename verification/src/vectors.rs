//! Triples of numbers: directions, points and colours.
use crate::convert::{lemma_ratio, ratio, whole};
use crate::scalar::Scalar;
use vstd::prelude::*;

verus! {

/// The pattern of the threshold under which a component counts as vanishing:
/// the single-precision number nearest to ten to the power -8.
pub const NEAR_ZERO: u32 = 0x322b_cc77;

/// Three numbers. A value without identity, freely copied.
#[derive(Clone, Copy, Debug, PartialEq, Eq, Structural)]
pub struct Vector3 {
    pub x: Scalar,
    pub y: Scalar,
    pub z: Scalar,
}

/// A position in space.
pub type Point3 = Vector3;

/// Red, green and blue.
pub type Color = Vector3;

/// The threshold is the number that it is said to be: the single-precision
/// number nearest to ten to the power -8.
pub proof fn lemma_near_zero()
    ensures
        ratio(1, 100_000_000) == (Scalar { bits: NEAR_ZERO }),
{
    vstd::arithmetic::power2::lemma2_to64();
    vstd::arithmetic::power2::lemma2_to64_rest();
    lemma_ratio(1, 100_000_000, 50, 0x4_0000_0000_0000, 11_258_999, 6_842_624);
}

impl Vector3 {
    /// The origin, each component zero with the sign bit clear.
    pub open spec fn spec_zeros() -> Vector3 {
        Vector3 { x: Scalar::spec_zero(), y: Scalar::spec_zero(), z: Scalar::spec_zero() }
    }

    /// The vector whose three components are `v`.
    pub open spec fn spec_fromv(v: Scalar) -> Vector3 {
        Vector3 { x: v, y: v, z: v }
    }

    /// Each component with the other sign.
    pub open spec fn spec_neg(self) -> Vector3 {
        Vector3 { x: self.x.spec_neg(), y: self.y.spec_neg(), z: self.z.spec_neg() }
    }

    /// The sum, component by component.
    pub open spec fn spec_add(self, other: Vector3) -> Vector3 {
        Vector3 { x: self.x.spec_add(other.x), y: self.y.spec_add(other.y), z: self.z.spec_add(other.z) }
    }

    /// The difference, component by component.
    pub open spec fn spec_sub(self, other: Vector3) -> Vector3 {
        Vector3 { x: self.x.spec_sub(other.x), y: self.y.spec_sub(other.y), z: self.z.spec_sub(other.z) }
    }

    /// The product, component by component.
    pub open spec fn spec_mul(self, other: Vector3) -> Vector3 {
        Vector3 { x: self.x.spec_mul(other.x), y: self.y.spec_mul(other.y), z: self.z.spec_mul(other.z) }
    }

    /// The quotient, component by component.
    pub open spec fn spec_div(self, other: Vector3) -> Vector3 {
        Vector3 { x: self.x.spec_div(other.x), y: self.y.spec_div(other.y), z: self.z.spec_div(other.z) }
    }

    /// Each component times `n`.
    pub open spec fn spec_scaled(self, n: Scalar) -> Vector3 {
        Vector3 { x: self.x.spec_mul(n), y: self.y.spec_mul(n), z: self.z.spec_mul(n) }
    }

    /// `n` times each component.
    pub open spec fn spec_times(n: Scalar, v: Vector3) -> Vector3 {
        Vector3 { x: n.spec_mul(v.x), y: n.spec_mul(v.y), z: n.spec_mul(v.z) }
    }

    /// Each component plus `n`.
    pub open spec fn spec_plus(self, n: Scalar) -> Vector3 {
        Vector3 { x: self.x.spec_add(n), y: self.y.spec_add(n), z: self.z.spec_add(n) }
    }

    /// Each component divided by `n`.
    pub open spec fn spec_divided(self, n: Scalar) -> Vector3 {
        Vector3 { x: self.x.spec_div(n), y: self.y.spec_div(n), z: self.z.spec_div(n) }
    }

    /// The cross product, right-handed.
    pub open spec fn spec_cross(u: Vector3, v: Vector3) -> Vector3 {
        Vector3 {
            x: u.y.spec_mul(v.z).spec_sub(u.z.spec_mul(v.y)),
            y: u.z.spec_mul(v.x).spec_sub(u.x.spec_mul(v.z)),
            z: u.x.spec_mul(v.y).spec_sub(u.y.spec_mul(v.x)),
        }
    }

    /// The dot product: the products of the components, added from the left.
    pub open spec fn spec_dot(u: Vector3, v: Vector3) -> Scalar {
        u.x.spec_mul(v.x).spec_add(u.y.spec_mul(v.y)).spec_add(u.z.spec_mul(v.z))
    }

    /// The square of the length.
    pub open spec fn spec_magnitude_squared(self) -> Scalar {
        Vector3::spec_dot(self, self)
    }

    /// The length.
    pub open spec fn spec_magnitude(self) -> Scalar {
        self.spec_magnitude_squared().spec_sqrt()
    }

    /// The vector scaled by one over its length.
    pub open spec fn spec_normalized(self) -> Vector3 {
        self.spec_scaled(Scalar::spec_one().spec_div(self.spec_magnitude()))
    }

    /// Every component is a number under the threshold. The comparison is
    /// signed: a component far below zero is under the threshold too.
    pub open spec fn spec_near_zero(self) -> bool {
        let s = Scalar { bits: NEAR_ZERO };
        self.x.spec_lt(s) && self.y.spec_lt(s) && self.z.spec_lt(s)
    }

    /// `v` mirrored on the plane of normal `n`: `v - 2 (v . n) n`.
    pub open spec fn spec_reflect(v: Vector3, n: Vector3) -> Vector3 {
        v.spec_sub(Vector3::spec_times(Scalar::spec_two().spec_mul(Vector3::spec_dot(v, n)), n))
    }

    /// The part of a refracted direction across the normal: the ratio of the
    /// indices times `uv + cos n`, where `cos` is the dot product of `-uv`
    /// and `n`, at most one.
    pub open spec fn spec_refract_perp(uv: Vector3, n: Vector3, etai_over_etat: Scalar) -> Vector3 {
        let cos_theta = Vector3::spec_dot(uv.spec_neg(), n).spec_min(Scalar::spec_one());
        Vector3::spec_times(etai_over_etat, uv.spec_add(Vector3::spec_times(cos_theta, n)))
    }

    /// `uv` bent at a surface of normal `n` by Snell's law: the part across
    /// the normal plus the part along it, `-sqrt(|1 - |perp|^2|) n`.
    pub open spec fn spec_refract(uv: Vector3, n: Vector3, etai_over_etat: Scalar) -> Vector3 {
        let perp = Vector3::spec_refract_perp(uv, n, etai_over_etat);
        let along = Scalar::spec_one().spec_sub(perp.spec_magnitude_squared()).spec_abs().spec_sqrt().spec_mul(
            Scalar::spec_minus_one(),
        );
        perp.spec_add(Vector3::spec_times(along, n))
    }

    /// The point lies in the open unit ball: its squared length is a number
    /// below one.
    pub open spec fn spec_in_unit_ball(self) -> bool {
        self.spec_magnitude_squared().spec_lt(Scalar::spec_one())
    }

    /// The vector with its third component set to zero.
    pub open spec fn spec_flat(self) -> Vector3 {
        Vector3 { x: self.x, y: self.y, z: Scalar::spec_zero() }
    }

    /// The first of the candidates that lies in the unit ball, if there is
    /// one: rejection goes on until a candidate is kept.
    pub open spec fn first_in_unit_ball(candidates: Seq<Vector3>) -> Option<Vector3>
        decreases candidates.len(),
    {
        if candidates.len() == 0 {
            None
        } else {
            match Vector3::first_in_unit_ball(candidates.drop_last()) {
                Some(p) => Some(p),
                None => if candidates.last().spec_in_unit_ball() {
                    Some(candidates.last())
                } else {
                    None
                },
            }
        }
    }

    /// The first of the candidates that lies in the unit disk once its third
    /// component is set to zero.
    pub open spec fn first_in_unit_disk(candidates: Seq<Vector3>) -> Option<Vector3>
        decreases candidates.len(),
    {
        if candidates.len() == 0 {
            None
        } else {
            match Vector3::first_in_unit_disk(candidates.drop_last()) {
                Some(p) => Some(p),
                None => if candidates.last().spec_flat().spec_in_unit_ball() {
                    Some(candidates.last().spec_flat())
                } else {
                    None
                },
            }
        }
    }

    /// A candidate that was kept stays the first when more candidates
    /// follow.
    pub proof fn lemma_first_stays(candidates: Seq<Vector3>, n: int)
        requires
            0 <= n <= candidates.len(),
            Vector3::first_in_unit_ball(candidates.take(n)) is Some,
        ensures
            Vector3::first_in_unit_ball(candidates) == Vector3::first_in_unit_ball(candidates.take(n)),
        decreases candidates.len(),
    {
        if n < candidates.len() {
            let init = candidates.drop_last();
            assert(init.take(n) =~= candidates.take(n));
            Vector3::lemma_first_stays(init, n);
        } else {
            assert(candidates.take(n) =~= candidates);
        }
    }

    /// A candidate that was kept for the disk stays the first when more
    /// candidates follow.
    pub proof fn lemma_first_flat_stays(candidates: Seq<Vector3>, n: int)
        requires
            0 <= n <= candidates.len(),
            Vector3::first_in_unit_disk(candidates.take(n)) is Some,
        ensures
            Vector3::first_in_unit_disk(candidates) == Vector3::first_in_unit_disk(candidates.take(n)),
        decreases candidates.len(),
    {
        if n < candidates.len() {
            let init = candidates.drop_last();
            assert(init.take(n) =~= candidates.take(n));
            Vector3::lemma_first_flat_stays(init, n);
        } else {
            assert(candidates.take(n) =~= candidates);
        }
    }

    /// The vector, or its opposite unless its dot product with `normal` is a
    /// number above zero.
    pub open spec fn spec_toward(self, normal: Vector3) -> Vector3 {
        if Vector3::spec_dot(self, normal).spec_gt(Scalar::spec_zero()) {
            self
        } else {
            self.spec_neg()
        }
    }

    /// The vector with these components.
    pub fn new(x: Scalar, y: Scalar, z: Scalar) -> (v: Vector3)
        ensures
            v.x == x,
            v.y == y,
            v.z == z,
    {
        Vector3 { x, y, z }
    }

    /// The vector with these whole numbers as components, each rounded to
    /// the nearest number that the format holds.
    pub fn newi(x: i32, y: i32, z: i32) -> (v: Vector3)
        ensures
            v.x == whole(x as int),
            v.y == whole(y as int),
            v.z == whole(z as int),
    {
        Vector3 { x: Scalar::from_i32(x), y: Scalar::from_i32(y), z: Scalar::from_i32(z) }
    }

    /// The vector whose three components are `v`.
    pub fn fromv(v: Scalar) -> (r: Vector3)
        ensures
            r == Vector3::spec_fromv(v),
    {
        Vector3 { x: v, y: v, z: v }
    }

    /// The origin, each component zero with the sign bit clear.
    pub fn zeros() -> (r: Vector3)
        ensures
            r == Vector3::spec_zeros(),
    {
        Vector3::fromv(Scalar::zero())
    }

    /// The cross product, right-handed, each component rounded as it is
    /// computed.
    pub fn cross(u: &Vector3, v: &Vector3) -> (r: Vector3)
        ensures
            r == Vector3::spec_cross(*u, *v),
    {
        Vector3 {
            x: u.y.mul(v.z).sub(u.z.mul(v.y)),
            y: u.z.mul(v.x).sub(u.x.mul(v.z)),
            z: u.x.mul(v.y).sub(u.y.mul(v.x)),
        }
    }

    /// The dot product, rounded after each product and each sum.
    pub fn dot(u: &Vector3, v: &Vector3) -> (r: Scalar)
        ensures
            r == Vector3::spec_dot(*u, *v),
    {
        u.x.mul(v.x).add(u.y.mul(v.y)).add(u.z.mul(v.z))
    }

    /// The square of the length.
    pub fn magnitude_squared(&self) -> (r: Scalar)
        ensures
            r == self.spec_magnitude_squared(),
    {
        self.x.mul(self.x).add(self.y.mul(self.y)).add(self.z.mul(self.z))
    }

    /// The length.
    pub fn magnitude(&self) -> (r: Scalar)
        ensures
            r == self.spec_magnitude(),
    {
        self.magnitude_squared().sqrt()
    }

    /// Each component times `n`.
    pub fn scaled(&self, n: Scalar) -> (r: Vector3)
        ensures
            r == self.spec_scaled(n),
    {
        Vector3 { x: self.x.mul(n), y: self.y.mul(n), z: self.z.mul(n) }
    }

    /// `n` times each component.
    pub fn times(n: Scalar, v: Vector3) -> (r: Vector3)
        ensures
            r == Vector3::spec_times(n, v),
    {
        Vector3 { x: n.mul(v.x), y: n.mul(v.y), z: n.mul(v.z) }
    }

    /// Each component divided by `n`.
    pub fn divided(&self, n: Scalar) -> (r: Vector3)
        ensures
            r == self.spec_divided(n),
    {
        Vector3 { x: self.x.div(n), y: self.y.div(n), z: self.z.div(n) }
    }

    /// The vector of length one along this one: the vector scaled by one
    /// over its length. A vector of length zero gives no numbers.
    pub fn normalized(&self) -> (r: Vector3)
        ensures
            r == self.spec_normalized(),
    {
        self.scaled(Scalar::one().div(self.magnitude()))
    }

    /// The sum, component by component.
    pub fn add(self, other: Vector3) -> (r: Vector3)
        ensures
            r == self.spec_add(other),
    {
        Vector3 { x: self.x.add(other.x), y: self.y.add(other.y), z: self.z.add(other.z) }
    }

    /// The difference, component by component.
    pub fn sub(self, other: Vector3) -> (r: Vector3)
        ensures
            r == self.spec_sub(other),
    {
        Vector3 { x: self.x.sub(other.x), y: self.y.sub(other.y), z: self.z.sub(other.z) }
    }

    /// The product, component by component.
    pub fn mul(self, other: Vector3) -> (r: Vector3)
        ensures
            r == self.spec_mul(other),
    {
        Vector3 { x: self.x.mul(other.x), y: self.y.mul(other.y), z: self.z.mul(other.z) }
    }

    /// The quotient, component by component.
    pub fn div(self, other: Vector3) -> (r: Vector3)
        ensures
            r == self.spec_div(other),
    {
        Vector3 { x: self.x.div(other.x), y: self.y.div(other.y), z: self.z.div(other.z) }
    }

    /// Each component plus `n`.
    pub fn plus(self, n: Scalar) -> (r: Vector3)
        ensures
            r == self.spec_plus(n),
    {
        Vector3 { x: self.x.add(n), y: self.y.add(n), z: self.z.add(n) }
    }

    /// Adds `other` to the vector, component by component.
    pub fn add_assign(&mut self, other: Vector3)
        ensures
            *final(self) == old(self).spec_add(other),
    {
        *self = Vector3 { x: self.x.add(other.x), y: self.y.add(other.y), z: self.z.add(other.z) };
    }

    /// Takes `other` from the vector, component by component.
    pub fn sub_assign(&mut self, other: Vector3)
        ensures
            *final(self) == old(self).spec_sub(other),
    {
        *self = Vector3 { x: self.x.sub(other.x), y: self.y.sub(other.y), z: self.z.sub(other.z) };
    }

    /// Multiplies the vector by `other`, component by component.
    pub fn mul_assign(&mut self, other: Vector3)
        ensures
            *final(self) == old(self).spec_mul(other),
    {
        *self = Vector3 { x: self.x.mul(other.x), y: self.y.mul(other.y), z: self.z.mul(other.z) };
    }

    /// Divides the vector by `other`, component by component.
    pub fn div_assign(&mut self, other: Vector3)
        ensures
            *final(self) == old(self).spec_div(other),
    {
        *self = Vector3 { x: self.x.div(other.x), y: self.y.div(other.y), z: self.z.div(other.z) };
    }

    /// The opposite vector: the sign bit of each component changes and
    /// nothing else.
    pub fn neg(self) -> (r: Vector3)
        ensures
            r == self.spec_neg(),
            r.x.value() == -self.x.value(),
            r.y.value() == -self.y.value(),
            r.z.value() == -self.z.value(),
    {
        Vector3 { x: self.x.neg(), y: self.y.neg(), z: self.z.neg() }
    }

    /// Whether the vector is too short to give a direction: every component
    /// lies under the threshold `NEAR_ZERO`, by a signed comparison.
    pub fn near_zero(&self) -> (r: bool)
        ensures
            r == self.spec_near_zero(),
    {
        let s = Scalar::from_bits(NEAR_ZERO);
        self.x.lt(s) && self.y.lt(s) && self.z.lt(s)
    }

    /// `v` mirrored on the plane of normal `n`.
    pub fn reflect(v: &Vector3, n: &Vector3) -> (r: Vector3)
        ensures
            r == Vector3::spec_reflect(*v, *n),
    {
        v.sub(Vector3::times(Scalar::two().mul(Vector3::dot(v, n)), *n))
    }

    /// `uv` bent at a surface of normal `n`, where `etai_over_etat` is the
    /// ratio of the refractive indices. The result need not have length one.
    pub fn refract(uv: &Vector3, n: &Vector3, etai_over_etat: Scalar) -> (r: Vector3)
        ensures
            r == Vector3::spec_refract(*uv, *n, etai_over_etat),
    {
        let cos_theta = Vector3::dot(&uv.neg(), n).min(Scalar::one());
        let r_out_perp = Vector3::times(etai_over_etat, uv.add(Vector3::times(cos_theta, *n)));
        let along = Scalar::one().sub(r_out_perp.magnitude_squared()).abs().sqrt().mul(Scalar::minus_one());
        let r_out_parallel = Vector3::times(along, *n);
        r_out_perp.add(r_out_parallel)
    }

    /// Whether a point drawn from the cube around the origin is kept as a
    /// point of the unit ball, or with a third component of zero of the unit
    /// disk: its squared length is a number below one.
    pub fn in_unit_ball(&self) -> (r: bool)
        ensures
            r == self.spec_in_unit_ball(),
    {
        self.magnitude_squared().lt(Scalar::one())
    }

    /// A point of the unit ball by rejection: the first of the candidates,
    /// which the caller drew from the cube around the origin, whose squared
    /// length is below one. There is none if every candidate is rejected.
    pub fn random_in_unit_sphere(candidates: &Vec<Vector3>) -> (r: Option<Vector3>)
        ensures
            r == Vector3::first_in_unit_ball(candidates@),
    {
        let mut i: usize = 0;
        while i < candidates.len()
            invariant
                i <= candidates.len(),
                Vector3::first_in_unit_ball(candidates@.take(i as int)) is None,
            decreases candidates.len() - i,
        {
            let p = candidates[i];
            proof {
                let upto = candidates@.take(i + 1);
                assert(upto.drop_last() =~= candidates@.take(i as int));
                assert(upto.last() == p);
            }
            if p.in_unit_ball() {
                proof {
                    Vector3::lemma_first_stays(candidates@, i + 1);
                }
                return Some(p);
            }
            i += 1;
        }
        proof {
            assert(candidates@.take(i as int) =~= candidates@);
        }
        None
    }

    /// A direction by rejection: the first candidate in the unit ball,
    /// brought to length one.
    pub fn random_unit_vector(candidates: &Vec<Vector3>) -> (r: Option<Vector3>)
        ensures
            r == match Vector3::first_in_unit_ball(candidates@) {
                Some(p) => Some(p.spec_normalized()),
                None => None,
            },
    {
        match Vector3::random_in_unit_sphere(candidates) {
            Some(p) => Some(p.normalized()),
            None => None,
        }
    }

    /// A direction in the half space of `normal` by rejection: the first
    /// candidate in the unit ball, brought to length one and turned towards
    /// the normal.
    pub fn random_in_hemisphere(normal: &Vector3, candidates: &Vec<Vector3>) -> (r: Option<Vector3>)
        ensures
            r == match Vector3::first_in_unit_ball(candidates@) {
                Some(p) => Some(p.spec_normalized().spec_toward(*normal)),
                None => None,
            },
    {
        match Vector3::random_unit_vector(candidates) {
            Some(u) => Some(u.toward(normal)),
            None => None,
        }
    }

    /// A point of the unit disk by rejection: the first of the candidates
    /// that lies in the unit ball once its third component is set to zero.
    pub fn random_in_unit_disk(candidates: &Vec<Vector3>) -> (r: Option<Vector3>)
        ensures
            r == Vector3::first_in_unit_disk(candidates@),
    {
        let mut i: usize = 0;
        while i < candidates.len()
            invariant
                i <= candidates.len(),
                Vector3::first_in_unit_disk(candidates@.take(i as int)) is None,
            decreases candidates.len() - i,
        {
            let p = Vector3 { x: candidates[i].x, y: candidates[i].y, z: Scalar::zero() };
            proof {
                let upto = candidates@.take(i + 1);
                assert(upto.drop_last() =~= candidates@.take(i as int));
                assert(upto.last().spec_flat() == p);
            }
            if p.in_unit_ball() {
                proof {
                    Vector3::lemma_first_flat_stays(candidates@, i + 1);
                }
                return Some(p);
            }
            i += 1;
        }
        proof {
            assert(candidates@.take(i as int) =~= candidates@);
        }
        None
    }

    /// The vector turned into the half space of `normal`: kept where its dot
    /// product with the normal is a number above zero, else made opposite.
    pub fn toward(self, normal: &Vector3) -> (r: Vector3)
        ensures
            r == self.spec_toward(*normal),
    {
        if Vector3::dot(&self, normal).gt(Scalar::zero()) {
            self
        } else {
            self.neg()
        }
    }
}

} // verus!
