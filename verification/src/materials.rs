//! Materials: what becomes of a ray where it meets a surface.
use crate::hittable::HitRecord;
use crate::rays::Ray;
use crate::scalar::Scalar;
use crate::symmetry::{lemma_plus_zero, lemma_zero_times, same_number};
use crate::vectors::{Color, Vector3};
use vstd::prelude::*;

verus! {

/// A diffuse surface.
#[derive(Clone, Copy, Debug, PartialEq, Eq, Structural)]
pub struct Lambertian {
    pub albedo: Color,
}

/// A mirror, blurred by `fuzz`, which `new` keeps between zero and one.
#[derive(Clone, Copy, Debug, PartialEq, Eq, Structural)]
pub struct Metal {
    pub albedo: Color,
    pub fuzz: Scalar,
}

/// A clear medium with refractive index `ir`.
#[derive(Clone, Copy, Debug, PartialEq, Eq, Structural)]
pub struct Dielectric {
    pub ir: Scalar,
}

/// The material of a surface. Materials never change and are copied into
/// the records of the rays that meet them.
#[derive(Clone, Copy, Debug, PartialEq, Eq, Structural)]
pub enum Material {
    Lambertian(Lambertian),
    Metal(Metal),
    Dielectric(Dielectric),
}

/// What chance contributes to one scattering. The caller draws it; each
/// material reads the part that it needs.
#[derive(Clone, Copy, Debug, PartialEq, Eq, Structural)]
pub struct Draw {
    /// A vector of length one, uniform over the directions: read by a
    /// diffuse surface.
    pub unit: Vector3,
    /// A point of the unit ball, uniform over it: read by a metal.
    pub ball: Vector3,
    /// A number from zero up to one, uniform: read by a clear surface.
    pub uniform: Scalar,
}

/// A fuzz radius brought into the interval from zero to one: what lies below
/// becomes zero, what lies above or is no number becomes one.
pub open spec fn unit_fuzz(f: Scalar) -> Scalar {
    f.spec_min(Scalar::spec_one()).spec_max(Scalar::spec_zero())
}

/// The ray that leaves the meeting point along `direction` at the time of
/// the incoming ray.
pub open spec fn scattered(r_in: Ray, rec: HitRecord, direction: Vector3) -> Ray {
    Ray { origin: rec.p, direction, time: r_in.time }
}

/// The fifth power, by squaring twice and multiplying once.
pub open spec fn fifth_power(x: Scalar) -> Scalar {
    x.spec_mul(x).spec_mul(x.spec_mul(x)).spec_mul(x)
}

impl Lambertian {
    /// The direction in which a diffuse surface scatters: the normal plus
    /// the unit vector drawn, or the normal itself where that sum is near
    /// zero.
    pub open spec fn direction(rec: HitRecord, unit: Vector3) -> Vector3 {
        let sum = rec.normal.spec_add(unit);
        if sum.spec_near_zero() {
            rec.normal
        } else {
            sum
        }
    }

    /// A diffuse surface of this albedo.
    pub fn new(albedo: Color) -> (m: Lambertian)
        ensures
            m.albedo == albedo,
    {
        Lambertian { albedo }
    }

    /// A diffuse surface absorbs no ray.
    pub fn scatter(&self, rec: &HitRecord, scattered: &Ray) -> (r: bool)
        ensures
            r,
    {
        true
    }

    /// The albedo.
    pub fn get_attenuation(&self) -> (c: Color)
        ensures
            c == self.albedo,
    {
        self.albedo
    }

    /// The scattered ray: from the meeting point, at the time of the
    /// incoming ray, along the normal plus the unit vector drawn.
    pub fn get_scatter_ray(&self, r_in: &Ray, rec: &HitRecord, unit: Vector3) -> (out: Ray)
        ensures
            out == scattered(*r_in, *rec, Lambertian::direction(*rec, unit)),
    {
        let mut scatter_direction = rec.normal.add(unit);
        if scatter_direction.near_zero() {
            scatter_direction = rec.normal;
        }
        Ray::new(rec.p, scatter_direction, r_in.time)
    }
}

impl Metal {
    /// The direction in which a metal scatters: the direction of the
    /// incoming ray, brought to length one and mirrored on the surface, plus
    /// the fuzz radius times the point drawn from the unit ball.
    pub open spec fn direction(self, r_in: Ray, rec: HitRecord, ball: Vector3) -> Vector3 {
        Vector3::spec_reflect(r_in.direction.spec_normalized(), rec.normal).spec_add(
            Vector3::spec_times(self.fuzz, ball),
        )
    }

    /// A metal of this albedo. The fuzz radius is `f` brought into the
    /// interval from zero to one.
    pub fn new(albedo: Color, f: Scalar) -> (m: Metal)
        ensures
            m.albedo == albedo,
            m.fuzz == unit_fuzz(f),
            Scalar::spec_zero().spec_le(m.fuzz) && m.fuzz.spec_le(Scalar::spec_one()),
            Scalar::spec_zero().spec_le(f) && f.spec_le(Scalar::spec_one()) ==> m.fuzz == f,
            f.spec_lt(Scalar::spec_zero()) ==> m.fuzz == Scalar::spec_zero(),
            f.nan() || f.spec_gt(Scalar::spec_one()) ==> m.fuzz == Scalar::spec_one(),
    {
        let one = Scalar::one();
        let zero = Scalar::zero();
        proof {
            vstd::arithmetic::power2::lemma_pow2_pos(149);
        }
        Metal { albedo, fuzz: f.min(one).max(zero) }
    }

    /// Whether the scattered ray goes on: it does where it leaves the
    /// surface, its direction having a dot product above zero with the
    /// normal, and is absorbed where the blur pushed it into the surface.
    pub fn scatter(&self, rec: &HitRecord, scattered: &Ray) -> (r: bool)
        ensures
            r == Vector3::spec_dot(scattered.direction, rec.normal).spec_gt(Scalar::spec_zero()),
    {
        Vector3::dot(&scattered.direction, &rec.normal).gt(Scalar::zero())
    }

    /// The albedo.
    pub fn get_attenuation(&self) -> (c: Color)
        ensures
            c == self.albedo,
    {
        self.albedo
    }

    /// The scattered ray: from the meeting point, at the time of the
    /// incoming ray, along the mirrored direction blurred by the point drawn.
    pub fn get_scatter_ray(&self, r_in: &Ray, rec: &HitRecord, ball: Vector3) -> (out: Ray)
        ensures
            out == scattered(*r_in, *rec, self.direction(*r_in, *rec, ball)),
    {
        let reflected = Vector3::reflect(&r_in.direction.normalized(), &rec.normal);
        Ray::new(rec.p, reflected.add(Vector3::times(self.fuzz, ball)), r_in.time)
    }
}

/// A metal without fuzz is a perfect mirror. Where the fuzz radius is zero
/// and the point drawn is finite, each component of the scattered direction
/// is the same number as that of the direction of the incoming ray, brought
/// to length one and mirrored on the surface.
pub proof fn lemma_metal_without_fuzz_mirrors(m: Metal, r_in: Ray, rec: HitRecord, ball: Vector3)
    requires
        m.fuzz.is_zero(),
        ball.x.finite(),
        ball.y.finite(),
        ball.z.finite(),
    ensures
        ({
            let mirrored = Vector3::spec_reflect(r_in.direction.spec_normalized(), rec.normal);
            let direction = m.direction(r_in, rec, ball);
            &&& same_number(direction.x, mirrored.x)
            &&& same_number(direction.y, mirrored.y)
            &&& same_number(direction.z, mirrored.z)
        }),
{
    let mirrored = Vector3::spec_reflect(r_in.direction.spec_normalized(), rec.normal);
    lemma_zero_times(m.fuzz, ball.x);
    lemma_zero_times(m.fuzz, ball.y);
    lemma_zero_times(m.fuzz, ball.z);
    lemma_plus_zero(mirrored.x, m.fuzz.spec_mul(ball.x));
    lemma_plus_zero(mirrored.y, m.fuzz.spec_mul(ball.y));
    lemma_plus_zero(mirrored.z, m.fuzz.spec_mul(ball.z));
}

impl Dielectric {
    /// Schlick's approximation of the share of light that a clear surface
    /// mirrors: `r0 + (1 - r0) (1 - cosine)^5` with `r0 = ((1 - ref_idx) /
    /// (1 + ref_idx))^2`.
    pub open spec fn spec_reflectance(cosine: Scalar, ref_idx: Scalar) -> Scalar {
        let one = Scalar::spec_one();
        let ratio = one.spec_sub(ref_idx).spec_div(one.spec_add(ref_idx));
        let r0 = ratio.spec_mul(ratio);
        r0.spec_add(one.spec_sub(r0).spec_mul(fifth_power(one.spec_sub(cosine))))
    }

    /// The ratio of the refractive indices on the two sides, in the order in
    /// which the ray passes them: one over the index for a ray that enters
    /// the medium, the index for one that leaves.
    pub open spec fn refraction_ratio(self, front_face: bool) -> Scalar {
        if front_face {
            Scalar::spec_one().spec_div(self.ir)
        } else {
            self.ir
        }
    }

    /// The cosine of the angle of incidence, at most one.
    pub open spec fn cos_theta(r_in: Ray, rec: HitRecord) -> Scalar {
        Vector3::spec_dot(r_in.direction.spec_normalized().spec_neg(), rec.normal).spec_min(Scalar::spec_one())
    }

    /// The sine of the angle of incidence.
    pub open spec fn sin_theta(r_in: Ray, rec: HitRecord) -> Scalar {
        let cos = Dielectric::cos_theta(r_in, rec);
        Scalar::spec_one().spec_sub(cos.spec_mul(cos)).spec_sqrt()
    }

    /// Whether the surface mirrors the ray: always where it cannot bend it,
    /// the ratio times the sine being above one, else where the reflectance
    /// is above the number drawn.
    pub open spec fn mirrors(self, r_in: Ray, rec: HitRecord, uniform: Scalar) -> bool {
        let ratio = self.refraction_ratio(rec.front_face);
        ratio.spec_mul(Dielectric::sin_theta(r_in, rec)).spec_gt(Scalar::spec_one())
            || Dielectric::spec_reflectance(Dielectric::cos_theta(r_in, rec), ratio).spec_gt(uniform)
    }

    /// The direction in which a clear surface scatters: the direction of the
    /// incoming ray, brought to length one, and then mirrored or bent.
    pub open spec fn direction(self, r_in: Ray, rec: HitRecord, uniform: Scalar) -> Vector3 {
        let unit_direction = r_in.direction.spec_normalized();
        if self.mirrors(r_in, rec, uniform) {
            Vector3::spec_reflect(unit_direction, rec.normal)
        } else {
            Vector3::spec_refract(unit_direction, rec.normal, self.refraction_ratio(rec.front_face))
        }
    }

    /// A clear medium of this refractive index.
    pub fn new(index_of_refraction: Scalar) -> (m: Dielectric)
        ensures
            m.ir == index_of_refraction,
    {
        Dielectric { ir: index_of_refraction }
    }

    /// Schlick's approximation of the reflectance at an angle of this
    /// cosine, for this ratio of refractive indices.
    pub fn reflectance(cosine: Scalar, ref_idx: Scalar) -> (r: Scalar)
        ensures
            r == Dielectric::spec_reflectance(cosine, ref_idx),
    {
        let one = Scalar::one();
        let ratio = one.sub(ref_idx).div(one.add(ref_idx));
        let r0 = ratio.mul(ratio);
        let x = one.sub(cosine);
        let fifth = x.mul(x).mul(x.mul(x)).mul(x);
        r0.add(one.sub(r0).mul(fifth))
    }

    /// A clear surface absorbs no ray.
    pub fn scatter(&self, rec: &HitRecord, scattered: &Ray) -> (r: bool)
        ensures
            r,
    {
        true
    }

    /// White: a clear medium does not tint.
    pub fn get_attenuation(&self) -> (c: Color)
        ensures
            c == Vector3::spec_fromv(Scalar::spec_one()),
    {
        Color::fromv(Scalar::one())
    }

    /// The scattered ray: from the meeting point, at the time of the
    /// incoming ray, mirrored where `mirrors` says so for the number drawn,
    /// and bent by Snell's law otherwise.
    pub fn get_scatter_ray(&self, r_in: &Ray, rec: &HitRecord, uniform: Scalar) -> (out: Ray)
        ensures
            out == scattered(*r_in, *rec, self.direction(*r_in, *rec, uniform)),
    {
        let refraction_ratio = if rec.front_face {
            Scalar::one().div(self.ir)
        } else {
            self.ir
        };
        let unit_direction = r_in.direction.normalized();

        let cos_theta = Vector3::dot(&unit_direction.neg(), &rec.normal).min(Scalar::one());
        let sin_theta = Scalar::one().sub(cos_theta.mul(cos_theta)).sqrt();
        let cannot_refract = refraction_ratio.mul(sin_theta).gt(Scalar::one());

        let direction = if cannot_refract || Dielectric::reflectance(cos_theta, refraction_ratio).gt(uniform) {
            Vector3::reflect(&unit_direction, &rec.normal)
        } else {
            Vector3::refract(&unit_direction, &rec.normal, refraction_ratio)
        };
        Ray::new(rec.p, direction, r_in.time)
    }
}

impl Material {
    /// The colour by which the material multiplies the light that it passes
    /// on: the albedo of a diffuse surface or a metal, white for a clear one.
    pub open spec fn attenuation(self) -> Color {
        match self {
            Material::Lambertian(m) => m.albedo,
            Material::Metal(m) => m.albedo,
            Material::Dielectric(_) => Vector3::spec_fromv(Scalar::spec_one()),
        }
    }

    /// Whether a scattered ray goes on: only a metal absorbs, and only a ray
    /// that does not leave its surface.
    pub open spec fn continues(self, rec: HitRecord, scattered: Ray) -> bool {
        match self {
            Material::Metal(_) => Vector3::spec_dot(scattered.direction, rec.normal).spec_gt(Scalar::spec_zero()),
            _ => true,
        }
    }

    /// The ray that the material scatters for what was drawn.
    pub open spec fn scatter_ray(self, r_in: Ray, rec: HitRecord, draw: Draw) -> Ray {
        match self {
            Material::Lambertian(_) => scattered(r_in, rec, Lambertian::direction(rec, draw.unit)),
            Material::Metal(m) => scattered(r_in, rec, m.direction(r_in, rec, draw.ball)),
            Material::Dielectric(m) => scattered(r_in, rec, m.direction(r_in, rec, draw.uniform)),
        }
    }

    /// The colour by which the material multiplies the light that it passes
    /// on.
    pub fn get_attenuation(&self) -> (c: Color)
        ensures
            c == self.attenuation(),
    {
        match self {
            Material::Lambertian(m) => m.get_attenuation(),
            Material::Metal(m) => m.get_attenuation(),
            Material::Dielectric(m) => m.get_attenuation(),
        }
    }

    /// Whether the scattered ray goes on, or the path is absorbed.
    pub fn scatter(&self, rec: &HitRecord, scattered: &Ray) -> (r: bool)
        ensures
            r == self.continues(*rec, *scattered),
    {
        match self {
            Material::Lambertian(m) => m.scatter(rec, scattered),
            Material::Metal(m) => m.scatter(rec, scattered),
            Material::Dielectric(m) => m.scatter(rec, scattered),
        }
    }

    /// The scattered ray for what was drawn.
    pub fn get_scatter_ray(&self, r_in: &Ray, rec: &HitRecord, draw: &Draw) -> (out: Ray)
        ensures
            out == self.scatter_ray(*r_in, *rec, *draw),
    {
        match self {
            Material::Lambertian(m) => m.get_scatter_ray(r_in, rec, draw.unit),
            Material::Metal(m) => m.get_scatter_ray(r_in, rec, draw.ball),
            Material::Dielectric(m) => m.get_scatter_ray(r_in, rec, draw.uniform),
        }
    }
}

} // verus!
