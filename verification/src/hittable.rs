//! What a ray finds on a surface, and the capability of being hit.
use crate::materials::{Lambertian, Material};
use crate::rays::Ray;
use crate::scalar::Scalar;
use crate::symmetry::lemma_dot_opposite;
use crate::vectors::{Color, Point3, Vector3};
use vstd::prelude::*;

verus! {

/// One meeting of a ray and a surface.
///
/// `normal` opposes the ray: it is the surface's outward normal where the ray
/// came from outside (`front_face`), and its opposite where it came from
/// inside. `set_face_normal` is the one place that decides this.
#[derive(Clone, Copy, Debug, PartialEq, Eq, Structural)]
pub struct HitRecord {
    pub p: Point3,
    pub normal: Vector3,
    pub t: Scalar,
    pub front_face: bool,
    pub mat: Material,
}

/// The side from which a ray meets a surface: it comes from outside where
/// the dot product of its direction with the outward normal is a number
/// below zero.
pub open spec fn front_side(direction: Vector3, outward_normal: Vector3) -> bool {
    Vector3::spec_dot(direction, outward_normal).spec_lt(Scalar::spec_zero())
}

/// The normal that a record keeps: the outward one from outside, its
/// opposite from inside.
pub open spec fn shading_normal(direction: Vector3, outward_normal: Vector3) -> Vector3 {
    if front_side(direction, outward_normal) {
        outward_normal
    } else {
        outward_normal.spec_neg()
    }
}

/// The normal kept opposes the ray. Where the dot product of the direction
/// with the outward normal is a number, so is that with the normal kept, and
/// it is not above zero.
pub proof fn lemma_normal_opposes_ray(direction: Vector3, outward_normal: Vector3)
    requires
        !Vector3::spec_dot(direction, outward_normal).nan(),
    ensures
        !Vector3::spec_dot(direction, shading_normal(direction, outward_normal)).nan(),
        Vector3::spec_dot(direction, shading_normal(direction, outward_normal)).value() <= 0,
{
    if !front_side(direction, outward_normal) {
        lemma_dot_opposite(direction, outward_normal);
    }
}

impl HitRecord {
    /// A record to be filled: at the origin, with parameter zero, from inside,
    /// on a black diffuse material.
    pub open spec fn spec_new() -> HitRecord {
        HitRecord {
            p: Vector3::spec_zeros(),
            normal: Vector3::spec_zeros(),
            t: Scalar::spec_zero(),
            front_face: false,
            mat: Material::Lambertian(Lambertian { albedo: Vector3::spec_zeros() }),
        }
    }

    /// A record to be filled.
    pub fn new() -> (rec: HitRecord)
        ensures
            rec == HitRecord::spec_new(),
    {
        HitRecord {
            p: Point3::zeros(),
            normal: Vector3::zeros(),
            t: Scalar::zero(),
            front_face: false,
            mat: Material::Lambertian(Lambertian::new(Color::zeros())),
        }
    }

    /// Orients the record against the ray `r`, given the outward normal of
    /// the surface at the meeting point. Afterwards the dot product of the
    /// ray's direction with the normal kept is not above zero, unless that
    /// with the outward normal is no number.
    pub fn set_face_normal(&mut self, r: &Ray, outward_normal: Vector3)
        ensures
            final(self).front_face == front_side(r.direction, outward_normal),
            final(self).normal == shading_normal(r.direction, outward_normal),
            final(self).p == old(self).p,
            final(self).t == old(self).t,
            final(self).mat == old(self).mat,
            !Vector3::spec_dot(r.direction, outward_normal).nan() ==> Vector3::spec_dot(
                r.direction,
                final(self).normal,
            ).spec_le(Scalar::spec_zero()),
    {
        proof {
            if !Vector3::spec_dot(r.direction, outward_normal).nan() {
                lemma_normal_opposes_ray(r.direction, outward_normal);
            }
        }
        self.front_face = Vector3::dot(&r.direction, &outward_normal).lt(Scalar::zero());
        self.normal = if self.front_face {
            outward_normal
        } else {
            outward_normal.neg()
        };
    }
}

/// A surface that a ray can meet.
pub trait Hittable {
    /// What `hit` answers for a ray and an interval of its parameter.
    spec fn hit_spec(&self, r: Ray, t_min: Scalar, t_max: Scalar) -> Option<HitRecord>;

    /// The meeting of the ray and the surface whose parameter lies strictly
    /// between `t_min` and `t_max`, if there is one. A surface reports no
    /// meeting outside that interval, and answers alike when asked again.
    fn hit(&self, r: &Ray, t_min: Scalar, t_max: Scalar) -> (rec: Option<HitRecord>)
        ensures
            rec == self.hit_spec(*r, t_min, t_max),
            rec matches Some(h) ==> t_min.spec_lt(h.t) && h.t.spec_lt(t_max),
    ;
}

} // verus!
