//! The surfaces that a scene can hold.
use crate::hittable::{HitRecord, Hittable};
use crate::hittable_list::{answers_nearest, closest_at, lemma_scan_closest, scan};
use crate::moving_sphere::{lemma_moving_sphere_answers_nearest, MovingSphere};
use crate::rays::Ray;
use crate::scalar::Scalar;
use crate::sphere::{lemma_sphere_answers_nearest, Sphere};
use vstd::prelude::*;

verus! {

/// A surface: a sphere at rest or in motion.
#[derive(Clone, Copy, Debug, PartialEq, Eq, Structural)]
pub enum Surface {
    Sphere(Sphere),
    MovingSphere(MovingSphere),
}

impl Hittable for Surface {
    open spec fn hit_spec(&self, r: Ray, t_min: Scalar, t_max: Scalar) -> Option<HitRecord> {
        match self {
            Surface::Sphere(s) => s.hit_spec(r, t_min, t_max),
            Surface::MovingSphere(s) => s.hit_spec(r, t_min, t_max),
        }
    }

    /// What the sphere answers that the surface is.
    fn hit(&self, r: &Ray, t_min: Scalar, t_max: Scalar) -> (rec: Option<HitRecord>) {
        match self {
            Surface::Sphere(s) => s.hit(r, t_min, t_max),
            Surface::MovingSphere(s) => s.hit(r, t_min, t_max),
        }
    }
}

/// Every surface answers with its first meeting.
pub proof fn lemma_surface_answers_nearest(s: Surface, r: Ray, t_min: Scalar)
    ensures
        answers_nearest(s, r, t_min),
{
    match s {
        Surface::Sphere(sphere) => lemma_sphere_answers_nearest(sphere, r, t_min),
        Surface::MovingSphere(sphere) => lemma_moving_sphere_answers_nearest(sphere, r, t_min),
    }
}

/// A scene returns the closest meeting. The scan finds nothing only if no
/// surface meets the ray between `t_min` and `t_max`; else it keeps a meeting
/// that no other precedes, and of equally close ones that of the surface
/// added first.
pub proof fn lemma_scene_closest(objects: Seq<Surface>, r: Ray, t_min: Scalar, t_max: Scalar)
    ensures
        match scan(objects, r, t_min, t_max) {
            None => forall|j: int|
                0 <= j < objects.len() ==> (#[trigger] objects[j].hit_spec(r, t_min, t_max)) is None,
            Some(h) => t_min.spec_lt(h.t) && h.t.spec_lt(t_max) && exists|i: int|
                closest_at(objects, r, t_min, t_max, h, i),
        },
{
    assert forall|i: int| 0 <= i < objects.len() implies answers_nearest(#[trigger] objects[i], r, t_min) by {
        lemma_surface_answers_nearest(objects[i], r, t_min);
    }
    lemma_scan_closest(objects, r, t_min, t_max);
}

} // verus!
