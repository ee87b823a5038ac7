//! Spheres whose centre moves on a line while the shutter is open.
use crate::hittable::{HitRecord, Hittable};
use crate::hittable_list::{answers_nearest, narrowed};
use crate::materials::Material;
use crate::rays::Ray;
use crate::scalar::Scalar;
use crate::sphere::{lemma_meeting_is_nearest, meet, meeting, Quadratic};
use crate::vectors::{Point3, Vector3};
use vstd::prelude::*;

verus! {

/// A sphere that is at `center0` at `time0` and at `center1` at `time1`,
/// and on the line through both at every other time.
#[derive(Clone, Copy, Debug, PartialEq, Eq, Structural)]
pub struct MovingSphere {
    pub center0: Point3,
    pub center1: Point3,
    pub time0: Scalar,
    pub time1: Scalar,
    pub radius: Scalar,
    pub mat: Material,
}

impl MovingSphere {
    /// The centre at `time`: `center0 + ((time - time0) / (time1 - time0))
    /// (center1 - center0)`, also before `time0` and after `time1`.
    pub open spec fn spec_center(self, time: Scalar) -> Point3 {
        self.center0.spec_add(
            Vector3::spec_times(
                time.spec_sub(self.time0).spec_div(self.time1.spec_sub(self.time0)),
                self.center1.spec_sub(self.center0),
            ),
        )
    }

    /// The sphere of this radius and material that moves from `center0` at
    /// `time0` to `center1` at `time1`.
    pub fn new(
        center0: Point3,
        center1: Point3,
        time0: Scalar,
        time1: Scalar,
        radius: Scalar,
        mat: Material,
    ) -> (s: MovingSphere)
        ensures
            s.center0 == center0,
            s.center1 == center1,
            s.time0 == time0,
            s.time1 == time1,
            s.radius == radius,
            s.mat == mat,
    {
        MovingSphere { center0, center1, time0, time1, radius, mat }
    }

    /// The centre at `time`, on the line through the two centres.
    pub fn center(&self, time: Scalar) -> (c: Point3)
        ensures
            c == self.spec_center(time),
    {
        self.center0.add(
            Vector3::times(time.sub(self.time0).div(self.time1.sub(self.time0)), self.center1.sub(self.center0)),
        )
    }
}

impl Hittable for MovingSphere {
    open spec fn hit_spec(&self, r: Ray, t_min: Scalar, t_max: Scalar) -> Option<HitRecord> {
        meeting(r, self.spec_center(r.time), self.radius, self.mat, t_min, t_max)
    }

    /// The first place strictly between `t_min` and `t_max` where the ray
    /// pierces the sphere as it stands at the ray's time, recorded with the
    /// sphere's material. A ray whose discriminant is below zero misses.
    fn hit(&self, r: &Ray, t_min: Scalar, t_max: Scalar) -> (rec: Option<HitRecord>)
        ensures
            Quadratic::of(*r, self.spec_center(r.time), self.radius).discriminant().spec_lt(Scalar::spec_zero())
                ==> rec is None,
    {
        meet(r, self.center(r.time), self.radius, self.mat, t_min, t_max)
    }
}

/// A moving sphere answers with its first meeting, as `lemma_scan_closest`
/// asks of the surfaces of a scene.
pub proof fn lemma_moving_sphere_answers_nearest(s: MovingSphere, r: Ray, t_min: Scalar)
    ensures
        answers_nearest(s, r, t_min),
{
    assert forall|upper: Scalar, lower: Scalar|
        #![trigger s.hit_spec(r, t_min, lower), s.hit_spec(r, t_min, upper)]
        lower.spec_le(upper) implies s.hit_spec(r, t_min, lower) == narrowed(
        s.hit_spec(r, t_min, upper),
        lower,
    ) by {
        lemma_meeting_is_nearest(r, s.spec_center(r.time), s.radius, s.mat, t_min, upper, lower);
    }
}

} // verus!
