//! Rays: a start, a direction and a moment within the shutter interval.
use crate::scalar::Scalar;
use crate::vectors::{Point3, Vector3};
use vstd::prelude::*;

verus! {

/// A half line through the scene. The direction need not have length one.
#[derive(Clone, Copy, Debug, PartialEq, Eq, Structural)]
pub struct Ray {
    pub origin: Point3,
    pub direction: Vector3,
    pub time: Scalar,
}

impl Ray {
    /// The point at parameter `t`: the origin plus `t` times the direction.
    pub open spec fn spec_at(self, t: Scalar) -> Point3 {
        self.origin.spec_add(Vector3::spec_times(t, self.direction))
    }

    /// The ray that leaves `origin` along `direction` at `time`.
    pub fn new(origin: Point3, direction: Vector3, time: Scalar) -> (r: Ray)
        ensures
            r.origin == origin,
            r.direction == direction,
            r.time == time,
    {
        Ray { origin, direction, time }
    }

    /// The point of the ray at parameter `t`.
    pub fn at(self, t: Scalar) -> (p: Point3)
        ensures
            p == self.spec_at(t),
    {
        self.origin.add(Vector3::times(t, self.direction))
    }
}

} // verus!
