//! The camera: from viewport coordinates to rays.
use crate::convert::whole;
use crate::rays::Ray;
use crate::scalar::Scalar;
use crate::vectors::{Point3, Vector3};
use vstd::prelude::*;

verus! {

/// The geometry of a view, derived once from where the camera stands and
/// looks.
#[derive(Clone, Copy, Debug, PartialEq, Eq, Structural)]
pub struct Camera {
    /// Where the camera stands.
    pub origin: Point3,
    /// The lower left corner of the viewport, in the plane of focus.
    pub lower_left_corner: Point3,
    /// The viewport's extent to the right.
    pub horizontal: Vector3,
    /// The viewport's extent upwards.
    pub vertical: Vector3,
    /// Half the aperture.
    pub lens_radius: Scalar,
    /// The unit vector to the right.
    pub u: Vector3,
    /// The unit vector upwards.
    pub v: Vector3,
    /// When the shutter opens.
    pub time0: Scalar,
    /// When the shutter closes.
    pub time1: Scalar,
}

impl Camera {
    /// The camera that stands at `look_from` and looks at `look_at`, with
    /// `vup` pointing roughly upwards.
    ///
    /// With `w` the unit vector from `look_at` to `look_from`, `u` is the
    /// cross product of `vup` and `w` brought to length one, and `v` the
    /// cross product of `w` and `u`. The viewport is as high as twice
    /// `tan_half_vfov` and `aspect_ratio` times as wide as high, both scaled
    /// by `focus_dist`; it is centred `focus_dist` before the camera.
    pub open spec fn spec_new(
        look_from: Point3,
        look_at: Point3,
        vup: Vector3,
        tan_half_vfov: Scalar,
        aspect_ratio: Scalar,
        aperture: Scalar,
        focus_dist: Scalar,
        time0: Scalar,
        time1: Scalar,
    ) -> Camera {
        let viewport_height = Scalar::spec_two().spec_mul(tan_half_vfov);
        let viewport_width = aspect_ratio.spec_mul(viewport_height);
        let w = look_from.spec_sub(look_at).spec_normalized();
        let u = Vector3::spec_cross(vup, w).spec_normalized();
        let v = Vector3::spec_cross(w, u);
        let horizontal = Vector3::spec_times(focus_dist.spec_mul(viewport_width), u);
        let vertical = Vector3::spec_times(focus_dist.spec_mul(viewport_height), v);
        Camera {
            origin: look_from,
            lower_left_corner: look_from.spec_sub(horizontal.spec_divided(Scalar::spec_two())).spec_sub(
                vertical.spec_divided(Scalar::spec_two()),
            ).spec_sub(Vector3::spec_times(focus_dist, w)),
            horizontal,
            vertical,
            lens_radius: aperture.spec_div(Scalar::spec_two()),
            u,
            v,
            time0,
            time1,
        }
    }

    /// The viewport coordinate of a sample within the pixel `pixel` of a
    /// row or column of `size` pixels: the pixel's number plus the jitter
    /// drawn, divided by one less than the size.
    pub open spec fn spec_coordinate(pixel: u32, jitter: Scalar, size: u32) -> Scalar {
        whole(pixel as int).spec_add(jitter).spec_div(whole(size - 1))
    }

    /// The moment of a ray: the moment drawn where the shutter stays open,
    /// its opening time being a number below its closing time, and else the
    /// opening time.
    pub open spec fn moment(self, drawn: Scalar) -> Scalar {
        if self.time0.spec_lt(self.time1) {
            drawn
        } else {
            self.time0
        }
    }

    /// Where on the lens a ray starts, seen from the centre: the point drawn
    /// from the unit disk, scaled by the lens radius and laid into the plane
    /// of `u` and `v`.
    pub open spec fn offset(self, lens: Vector3) -> Vector3 {
        let rd = Vector3::spec_times(self.lens_radius, lens);
        self.u.spec_scaled(rd.x).spec_add(self.v.spec_scaled(rd.y))
    }

    /// The ray through the point of the viewport at `s` of its width and
    /// `t` of its height: from the lens, at the point drawn, towards that
    /// point of the plane of focus.
    pub open spec fn ray(self, s: Scalar, t: Scalar, lens: Vector3, drawn: Scalar) -> Ray {
        let offset = self.offset(lens);
        Ray {
            origin: self.origin.spec_add(offset),
            direction: self.lower_left_corner.spec_add(Vector3::spec_times(s, self.horizontal)).spec_add(
                Vector3::spec_times(t, self.vertical),
            ).spec_sub(self.origin).spec_sub(offset),
            time: self.moment(drawn),
        }
    }

    /// The camera that stands at `look_from` and looks at `look_at`.
    /// `tan_half_vfov` is the tangent of half the vertical field of view.
    pub fn new(
        look_from: Point3,
        look_at: Point3,
        vup: Vector3,
        tan_half_vfov: Scalar,
        aspect_ratio: Scalar,
        aperture: Scalar,
        focus_dist: Scalar,
        time0: Scalar,
        time1: Scalar,
    ) -> (c: Camera)
        ensures
            c == Camera::spec_new(
                look_from,
                look_at,
                vup,
                tan_half_vfov,
                aspect_ratio,
                aperture,
                focus_dist,
                time0,
                time1,
            ),
    {
        let h = tan_half_vfov;

        let viewport_height = Scalar::two().mul(h);
        let viewport_width = aspect_ratio.mul(viewport_height);

        let w = look_from.sub(look_at).normalized();
        let u = Vector3::cross(&vup, &w).normalized();
        let v = Vector3::cross(&w, &u);

        let origin = look_from;
        let horizontal = Vector3::times(focus_dist.mul(viewport_width), u);
        let vertical = Vector3::times(focus_dist.mul(viewport_height), v);
        let lower_left_corner = origin.sub(horizontal.divided(Scalar::two())).sub(
            vertical.divided(Scalar::two()),
        ).sub(Vector3::times(focus_dist, w));
        let lens_radius = aperture.div(Scalar::two());

        Camera { origin, lower_left_corner, horizontal, vertical, lens_radius, u, v, time0, time1 }
    }

    /// The viewport coordinate of a sample within a pixel. `jitter` is a
    /// number drawn from zero up to one.
    pub fn coordinate(pixel: u32, jitter: Scalar, size: u32) -> (c: Scalar)
        requires
            size > 0,
        ensures
            c == Camera::spec_coordinate(pixel, jitter, size),
    {
        Scalar::from_u32(pixel).add(jitter).div(Scalar::from_u32(size - 1))
    }

    /// Whether the shutter stays open for a while, so that a moment can be
    /// drawn between its two times.
    pub fn blurs(&self) -> (r: bool)
        ensures
            r == self.time0.spec_lt(self.time1),
    {
        self.time0.lt(self.time1)
    }

    /// The ray for the viewport coordinates `s` and `t`, both from zero to
    /// one. `lens` is a point drawn from the unit disk, and `drawn` a moment
    /// drawn between the shutter's two times, which is read only where the
    /// shutter stays open.
    pub fn get_ray(&self, s: Scalar, t: Scalar, lens: Vector3, drawn: Scalar) -> (r: Ray)
        ensures
            r == self.ray(s, t, lens, drawn),
    {
        let rd = Vector3::times(self.lens_radius, lens);
        let offset = self.u.scaled(rd.x).add(self.v.scaled(rd.y));
        let time = if self.blurs() {
            drawn
        } else {
            self.time0
        };
        Ray::new(
            self.origin.add(offset),
            self.lower_left_corner.add(Vector3::times(s, self.horizontal)).add(
                Vector3::times(t, self.vertical),
            ).sub(self.origin).sub(offset),
            time,
        )
    }
}

} // verus!
