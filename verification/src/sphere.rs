//! Spheres, and where a ray pierces one.
use crate::hittable::{front_side, shading_normal, HitRecord, Hittable};
use crate::hittable_list::{answers_nearest, narrowed};
use crate::order::{
    lemma_add_grows, lemma_div_grows, lemma_magnitude_squared_sign, lemma_product_sign, lemma_sqrt_is_not_negative,
    lemma_square_sign, lemma_sum_sign, lemma_value_bounds,
};
use crate::materials::Material;
use crate::rays::Ray;
use crate::scalar::{lemma_rank_orders, Scalar};
use crate::vectors::{Point3, Vector3};
use vstd::prelude::*;

verus! {

/// A sphere at rest.
#[derive(Clone, Copy, Debug, PartialEq, Eq, Structural)]
pub struct Sphere {
    pub center: Point3,
    pub radius: Scalar,
    pub mat: Material,
}

/// The equation of a ray and a sphere, `|O + t D - C|^2 = r^2`, as a
/// quadratic in `t` with the linear coefficient halved.
#[derive(Clone, Copy, Debug, PartialEq, Eq, Structural)]
pub struct Quadratic {
    /// The squared length of the direction.
    pub a: Scalar,
    /// The dot product of `O - C` with the direction.
    pub half_b: Scalar,
    /// The squared length of `O - C`, less the squared radius.
    pub c: Scalar,
}

impl Quadratic {
    /// The quadratic of the ray `r` and the sphere about `center`.
    pub open spec fn of(r: Ray, center: Point3, radius: Scalar) -> Quadratic {
        let oc = r.origin.spec_sub(center);
        Quadratic {
            a: r.direction.spec_magnitude_squared(),
            half_b: Vector3::spec_dot(oc, r.direction),
            c: oc.spec_magnitude_squared().spec_sub(radius.spec_mul(radius)),
        }
    }

    /// `half_b^2 - a c`: below zero where the ray misses the sphere.
    pub open spec fn discriminant(self) -> Scalar {
        self.half_b.spec_mul(self.half_b).spec_sub(self.a.spec_mul(self.c))
    }

    /// The smaller root, `(-half_b - sqrt(discriminant)) / a`.
    pub open spec fn near(self) -> Scalar {
        self.half_b.spec_neg().spec_sub(self.discriminant().spec_sqrt()).spec_div(self.a)
    }

    /// The larger root, `(-half_b + sqrt(discriminant)) / a`.
    pub open spec fn far(self) -> Scalar {
        self.half_b.spec_neg().spec_add(self.discriminant().spec_sqrt()).spec_div(self.a)
    }

    /// The root that counts. There is none where the discriminant is a
    /// number below zero. Else the smaller root is tried first and the larger
    /// one after it; the first that lies strictly inside the interval is
    /// taken.
    pub open spec fn root(self, t_min: Scalar, t_max: Scalar) -> Option<Scalar> {
        if self.discriminant().spec_lt(Scalar::spec_zero()) {
            None
        } else if strictly_inside(self.near(), t_min, t_max) {
            Some(self.near())
        } else if strictly_inside(self.far(), t_min, t_max) {
            Some(self.far())
        } else {
            None
        }
    }
}

/// `t` lies strictly between the two ends.
pub open spec fn strictly_inside(t: Scalar, t_min: Scalar, t_max: Scalar) -> bool {
    t_min.spec_lt(t) && t.spec_lt(t_max)
}

/// The outward normal of the sphere at `p`: `p` less the centre, divided by
/// the radius.
pub open spec fn outward_normal(p: Point3, center: Point3, radius: Scalar) -> Vector3 {
    p.spec_sub(center).spec_divided(radius)
}

/// The record of the meeting at parameter `t`: the point of the ray there,
/// the side from which the ray came, and the normal against it.
pub open spec fn record_at(r: Ray, center: Point3, radius: Scalar, mat: Material, t: Scalar) -> HitRecord {
    let p = r.spec_at(t);
    let outward = outward_normal(p, center, radius);
    HitRecord {
        p,
        normal: shading_normal(r.direction, outward),
        t,
        front_face: front_side(r.direction, outward),
        mat,
    }
}

/// What a sphere about `center` answers to the ray `r`.
pub open spec fn meeting(r: Ray, center: Point3, radius: Scalar, mat: Material, t_min: Scalar, t_max: Scalar) -> Option<
    HitRecord,
> {
    match Quadratic::of(r, center, radius).root(t_min, t_max) {
        Some(t) => Some(record_at(r, center, radius, mat, t)),
        None => None,
    }
}

/// The meeting of the ray `r` and the sphere about `center`, if one lies
/// strictly between `t_min` and `t_max`.
pub fn meet(r: &Ray, center: Point3, radius: Scalar, mat: Material, t_min: Scalar, t_max: Scalar) -> (rec: Option<
    HitRecord,
>)
    ensures
        rec == meeting(*r, center, radius, mat, t_min, t_max),
        rec matches Some(h) ==> strictly_inside(h.t, t_min, t_max),
        Quadratic::of(*r, center, radius).discriminant().spec_lt(Scalar::spec_zero()) ==> rec is None,
{
    let oc = r.origin.sub(center);
    let a = r.direction.magnitude_squared();
    let half_b = Vector3::dot(&oc, &r.direction);
    let c = oc.magnitude_squared().sub(radius.mul(radius));

    let discriminant = half_b.mul(half_b).sub(a.mul(c));
    if discriminant.lt(Scalar::zero()) {
        return None;
    }
    let mut root = half_b.neg().sub(discriminant.sqrt()).div(a);
    if !(t_min.lt(root) && root.lt(t_max)) {
        root = half_b.neg().add(discriminant.sqrt()).div(a);
        if !(t_min.lt(root) && root.lt(t_max)) {
            return None;
        }
    }
    let mut rec = HitRecord::new();
    rec.t = root;
    rec.p = r.at(rec.t);
    let outward = rec.p.sub(center).divided(radius);
    rec.set_face_normal(r, outward);
    rec.mat = mat;
    Some(rec)
}

/// The roots come in their order: the larger root is never a number below
/// the smaller one. The square root is not negative, and neither adding it
/// in place of its opposite nor dividing by a squared length turns the order
/// round, rounded as all of it is.
pub proof fn lemma_roots_in_order(r: Ray, center: Point3, radius: Scalar)
    ensures
        !Quadratic::of(r, center, radius).far().spec_lt(Quadratic::of(r, center, radius).near()),
{
    let q = Quadratic::of(r, center, radius);
    if !q.near().nan() && !q.far().nan() {
        let root = q.discriminant().spec_sqrt();
        let back = q.half_b.spec_neg();
        lemma_sqrt_is_not_negative(q.discriminant());
        lemma_add_grows(back, root.spec_neg(), root);
        lemma_magnitude_squared_sign(r.direction);
        lemma_div_grows(back.spec_sub(root), back.spec_add(root), q.a);
    }
}

/// A ray that starts inside the sphere does not miss it for want of a root:
/// where the squared distance of its start from the centre is below the
/// squared radius, the discriminant is not below zero.
pub proof fn lemma_start_inside(r: Ray, center: Point3, radius: Scalar)
    requires
        Quadratic::of(r, center, radius).c.spec_lt(Scalar::spec_zero()),
    ensures
        !Quadratic::of(r, center, radius).discriminant().spec_lt(Scalar::spec_zero()),
{
    let q = Quadratic::of(r, center, radius);
    if !q.discriminant().nan() {
        let square = q.half_b.spec_mul(q.half_b);
        let product = q.a.spec_mul(q.c);
        lemma_square_sign(q.half_b);
        lemma_magnitude_squared_sign(r.direction);
        lemma_product_sign(q.a, q.c);
        lemma_sum_sign(square, product.spec_neg());
        lemma_value_bounds(q.discriminant());
    }
}

/// A sphere answers with its first meeting: every answer lies strictly
/// inside the interval asked for, and an interval that ends lower gives the
/// same meeting while it still fits, else none.
pub proof fn lemma_meeting_is_nearest(
    r: Ray,
    center: Point3,
    radius: Scalar,
    mat: Material,
    t_min: Scalar,
    upper: Scalar,
    lower: Scalar,
)
    requires
        lower.spec_le(upper),
    ensures
        meeting(r, center, radius, mat, t_min, upper) matches Some(h) ==> strictly_inside(h.t, t_min, upper),
        meeting(r, center, radius, mat, t_min, lower) == narrowed(
            meeting(r, center, radius, mat, t_min, upper),
            lower,
        ),
{
    let q = Quadratic::of(r, center, radius);
    lemma_roots_in_order(r, center, radius);
    lemma_rank_orders(q.near(), q.far());
}

impl Sphere {
    /// The sphere about `center` of this radius and material.
    pub fn new(center: Point3, radius: Scalar, mat: Material) -> (s: Sphere)
        ensures
            s.center == center,
            s.radius == radius,
            s.mat == mat,
    {
        Sphere { center, radius, mat }
    }
}

impl Hittable for Sphere {
    open spec fn hit_spec(&self, r: Ray, t_min: Scalar, t_max: Scalar) -> Option<HitRecord> {
        meeting(r, self.center, self.radius, self.mat, t_min, t_max)
    }

    /// The first place strictly between `t_min` and `t_max` where the ray
    /// pierces the sphere, recorded with the sphere's material. A ray whose
    /// discriminant is below zero misses.
    fn hit(&self, r: &Ray, t_min: Scalar, t_max: Scalar) -> (rec: Option<HitRecord>)
        ensures
            Quadratic::of(*r, self.center, self.radius).discriminant().spec_lt(Scalar::spec_zero()) ==> rec is None,
    {
        meet(r, self.center, self.radius, self.mat, t_min, t_max)
    }
}

/// A sphere answers with its first meeting, as `lemma_scan_closest` asks of
/// the surfaces of a scene.
pub proof fn lemma_sphere_answers_nearest(s: Sphere, r: Ray, t_min: Scalar)
    ensures
        answers_nearest(s, r, t_min),
{
    assert forall|upper: Scalar, lower: Scalar|
        #![trigger s.hit_spec(r, t_min, lower), s.hit_spec(r, t_min, upper)]
        lower.spec_le(upper) implies s.hit_spec(r, t_min, lower) == narrowed(
        s.hit_spec(r, t_min, upper),
        lower,
    ) by {
        lemma_meeting_is_nearest(r, s.center, s.radius, s.mat, t_min, upper, lower);
    }
}

} // verus!
