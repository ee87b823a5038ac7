use raytrace::hittable::{HitRecord, Hittable};
use raytrace::materials::{Dielectric, Lambertian, Material, Metal};
use raytrace::moving_sphere::MovingSphere;
use raytrace::rays::Ray;
use raytrace::scalar::Scalar;
use raytrace::sphere::{meet, Sphere};
use raytrace::vectors::Vector3;

fn s(x: f32) -> Scalar {
    Scalar::from_bits(x.to_bits())
}

fn f(x: Scalar) -> f32 {
    f32::from_bits(x.to_bits())
}

fn v(a: [f32; 3]) -> Vector3 {
    Vector3::new(s(a[0]), s(a[1]), s(a[2]))
}

fn a(v: Vector3) -> [f32; 3] {
    [f(v.x), f(v.y), f(v.z)]
}

fn dot(u: [f32; 3], w: [f32; 3]) -> f32 {
    u[0] * w[0] + u[1] * w[1] + u[2] * w[2]
}

fn ray(origin: [f32; 3], direction: [f32; 3]) -> Ray {
    Ray::new(v(origin), v(direction), s(0.0))
}

fn grey() -> Material {
    Material::Lambertian(Lambertian::new(v([0.5, 0.5, 0.5])))
}

fn ball() -> Sphere {
    Sphere::new(v([0.0, 0.0, -1.0]), s(0.5), grey())
}

/// The meeting computed in hardware arithmetic: parameter, point, normal, side.
fn reference(
    origin: [f32; 3],
    direction: [f32; 3],
    center: [f32; 3],
    radius: f32,
    t_min: f32,
    t_max: f32,
) -> Option<(f32, [f32; 3], [f32; 3], bool)> {
    let oc = [origin[0] - center[0], origin[1] - center[1], origin[2] - center[2]];
    let a = dot(direction, direction);
    let half_b = dot(oc, direction);
    let c = dot(oc, oc) - radius * radius;
    let discriminant = half_b * half_b - a * c;
    if discriminant < 0.0 {
        return None;
    }
    let mut root = (-half_b - discriminant.sqrt()) / a;
    if !(t_min < root && root < t_max) {
        root = (-half_b + discriminant.sqrt()) / a;
        if !(t_min < root && root < t_max) {
            return None;
        }
    }
    let p = [origin[0] + root * direction[0], origin[1] + root * direction[1], origin[2] + root * direction[2]];
    let n = [(p[0] - center[0]) / radius, (p[1] - center[1]) / radius, (p[2] - center[2]) / radius];
    let front = dot(direction, n) < 0.0;
    Some((root, p, if front { n } else { [-n[0], -n[1], -n[2]] }, front))
}

fn rays() -> Vec<([f32; 3], [f32; 3])> {
    let mut out = vec![
        ([0.0, 0.0, 0.0], [0.0, 0.0, -1.0]),
        ([0.0, 0.0, -1.0], [0.3, 0.4, 0.5]),
        ([0.2, 0.1, 0.0], [0.0, 0.1, -1.0]),
        ([0.0, 0.0, -3.0], [0.05, 0.0, 1.0]),
        ([0.0, 2.0, 0.0], [0.0, 0.0, -1.0]),
        ([0.0, 0.5, 0.0], [0.0, 0.0, -1.0]),
        ([0.0, 0.0, 0.0], [0.0, 0.0, 1.0]),
        ([0.0, 0.0, 0.0], [0.0, 0.0, 0.0]),
    ];
    let mut state: u32 = 0x1f2e_3d4c;
    for _ in 0..400 {
        let mut c = [0.0f32; 6];
        for x in c.iter_mut() {
            state = state.wrapping_mul(1_664_525).wrapping_add(1_013_904_223);
            *x = (state >> 8) as f32 / 8_388_608.0 - 1.0;
        }
        // towards a point near the sphere
        let origin = [c[0], c[1], c[2] + 0.5];
        out.push((origin, [0.6 * c[3] - origin[0], 0.6 * c[4] - origin[1], 0.6 * c[5] - 1.0 - origin[2]]));
    }
    out
}

#[test]
fn head_on_ray_hits_the_front_of_the_sphere() {
    let rec = ball()
        .hit(&ray([0.0, 0.0, 0.0], [0.0, 0.0, -1.0]), s(0.001), s(f32::INFINITY))
        .expect("the ray runs through the centre");
    assert_eq!(f(rec.t), 0.5);
    assert_eq!(rec.normal, v([0.0, 0.0, 1.0]));
    assert!(rec.front_face);
    assert_eq!(rec.p, v([0.0, 0.0, -0.5]));
    assert_eq!(rec.mat, grey());
}

#[test]
fn ray_from_the_centre_hits_from_inside() {
    let rec = ball()
        .hit(&ray([0.0, 0.0, -1.0], [0.0, 1.0, 0.0]), s(0.001), s(f32::INFINITY))
        .expect("a ray from the centre leaves the sphere");
    assert_eq!(f(rec.t), 0.5);
    assert!(!rec.front_face);
    assert_eq!(a(rec.normal), [0.0, -1.0, 0.0]);
    assert_eq!(a(rec.p), [0.0, 0.5, -1.0]);
}

#[test]
fn rays_from_inside_hit_from_inside() {
    let mut state: u32 = 0x0dd_ba11;
    for _ in 0..500 {
        let mut c = [0.0f32; 6];
        for x in c.iter_mut() {
            state = state.wrapping_mul(1_664_525).wrapping_add(1_013_904_223);
            *x = (state >> 8) as f32 / 8_388_608.0 - 1.0;
        }
        // an origin well inside the sphere, any direction that is not tiny
        let origin = [0.25 * c[0], 0.25 * c[1], -1.0 + 0.25 * c[2]];
        let direction = [c[3], c[4], c[5]];
        if dot(direction, direction) < 0.01 {
            continue;
        }
        let rec = ball().hit(&ray(origin, direction), s(0.001), s(f32::INFINITY)).expect("the ray leaves the sphere");
        assert!(f(rec.t) > 0.0);
        assert!(!rec.front_face);
    }
}

#[test]
fn ray_beside_the_sphere_misses() {
    assert_eq!(ball().hit(&ray([0.0, 2.0, 0.0], [0.0, 0.0, -1.0]), s(0.001), s(f32::INFINITY)), None);
    assert_eq!(ball().hit(&ray([0.0, 0.0, 0.0], [0.0, 1.0, 0.0]), s(0.001), s(f32::INFINITY)), None);
    assert_eq!(ball().hit(&ray([0.51, 0.0, 0.0], [0.0, 0.0, -1.0]), s(0.001), s(f32::INFINITY)), None);
}

#[test]
fn sphere_behind_the_ray_misses() {
    assert_eq!(ball().hit(&ray([0.0, 0.0, 0.0], [0.0, 0.0, 1.0]), s(0.001), s(f32::INFINITY)), None);
}

#[test]
fn the_ends_of_the_interval_are_left_out() {
    let r = ray([0.0, 0.0, 0.0], [0.0, 0.0, -1.0]);
    // roots 0.5 and 1.5
    assert_eq!(ball().hit(&r, s(0.001), s(0.5)), None);
    let rec = ball().hit(&r, s(0.5), s(2.0)).expect("the larger root is inside");
    assert_eq!(f(rec.t), 1.5);
    assert!(!rec.front_face);
    assert_eq!(a(rec.normal), [0.0, 0.0, 1.0]);
    assert_eq!(ball().hit(&r, s(0.5), s(1.5)), None);
    assert_eq!(ball().hit(&r, s(1.5), s(9.0)), None);
}

#[test]
fn smaller_root_is_tried_first() {
    let rec = ball().hit(&ray([0.0, 0.0, 0.0], [0.0, 0.0, -1.0]), s(0.25), s(2.0)).expect("both roots are inside");
    assert_eq!(f(rec.t), 0.5);
}

#[test]
fn a_ray_without_direction_misses() {
    assert_eq!(ball().hit(&ray([0.0, 0.0, 0.0], [0.0, 0.0, 0.0]), s(0.001), s(f32::INFINITY)), None);
    assert_eq!(ball().hit(&ray([f32::NAN, 0.0, 0.0], [0.0, 0.0, -1.0]), s(0.001), s(f32::INFINITY)), None);
}

#[test]
fn sphere_agrees_with_the_hardware() {
    for (origin, direction) in rays() {
        for (t_min, t_max) in [(0.001f32, f32::INFINITY), (0.001, 1.0), (1.0, 3.0)] {
            let got = ball().hit(&ray(origin, direction), s(t_min), s(t_max));
            let want = reference(origin, direction, [0.0, 0.0, -1.0], 0.5, t_min, t_max);
            match (got, want) {
                (None, None) => {}
                (Some(rec), Some((t, p, n, front))) => {
                    assert_eq!(f(rec.t).to_bits(), t.to_bits());
                    assert_eq!(a(rec.p).map(f32::to_bits), p.map(f32::to_bits));
                    assert_eq!(a(rec.normal).map(f32::to_bits), n.map(f32::to_bits));
                    assert_eq!(rec.front_face, front);
                    assert_eq!(rec.mat, grey());
                }
                (got, want) => panic!("{:?} for {:?}", got, want),
            }
        }
    }
}

#[test]
fn normals_have_length_one_and_oppose_the_ray() {
    let mut hits = 0;
    for (origin, direction) in rays() {
        if let Some(rec) = ball().hit(&ray(origin, direction), s(0.001), s(f32::INFINITY)) {
            hits += 1;
            let n = a(rec.normal);
            assert!((dot(n, n) - 1.0).abs() < 1e-5);
            assert!(dot(direction, n) <= 0.0);
            assert!(f(Vector3::dot(&v(direction), &rec.normal)) <= 0.0);
            assert!(f(rec.t) > 0.001);
        }
    }
    assert!(hits > 50);
}

#[test]
fn set_face_normal_from_outside() {
    let mut rec = HitRecord::new();
    rec.set_face_normal(&ray([0.0, 2.0, 0.0], [0.0, -1.0, 0.0]), v([0.0, 1.0, 0.0]));
    assert!(rec.front_face);
    assert_eq!(rec.normal, v([0.0, 1.0, 0.0]));
}

#[test]
fn set_face_normal_from_inside() {
    let mut rec = HitRecord::new();
    rec.t = s(2.0);
    rec.set_face_normal(&ray([0.0, 0.0, 0.0], [0.0, 1.0, 0.0]), v([0.0, 1.0, 0.0]));
    assert!(!rec.front_face);
    assert_eq!(rec.normal, v([-0.0, -1.0, -0.0]));
    assert_eq!(rec.t, s(2.0));
    assert_eq!(rec.p, Vector3::zeros());
}

#[test]
fn set_face_normal_of_a_grazing_ray() {
    let mut rec = HitRecord::new();
    rec.set_face_normal(&ray([0.0, 0.0, 0.0], [0.0, 1.0, 0.0]), v([1.0, 0.0, 0.0]));
    assert!(!rec.front_face);
    assert_eq!(rec.normal, v([-1.0, -0.0, -0.0]));
    rec.set_face_normal(&ray([0.0, 0.0, 0.0], [f32::NAN, 1.0, 0.0]), v([1.0, 0.0, 0.0]));
    assert!(!rec.front_face);
}

#[test]
fn new_record_is_blank() {
    let rec = HitRecord::new();
    assert_eq!(rec.p, Vector3::zeros());
    assert_eq!(rec.normal, Vector3::zeros());
    assert_eq!(rec.t, Scalar::zero());
    assert!(!rec.front_face);
    assert_eq!(rec.mat, Material::Lambertian(Lambertian::new(Vector3::zeros())));
}

#[test]
fn sphere_keeps_its_parts() {
    let m = Material::Metal(Metal::new(v([0.7, 0.6, 0.5]), s(0.0)));
    let sphere = Sphere::new(v([4.0, 1.0, 0.0]), s(1.0), m);
    assert_eq!(sphere.center, v([4.0, 1.0, 0.0]));
    assert_eq!(sphere.radius, s(1.0));
    assert_eq!(sphere.mat, m);
}

#[test]
fn meet_is_what_a_sphere_answers() {
    let r = ray([0.1, 0.2, 0.0], [0.0, 0.0, -1.0]);
    assert_eq!(
        meet(&r, v([0.0, 0.0, -1.0]), s(0.5), grey(), s(0.001), s(f32::INFINITY)),
        ball().hit(&r, s(0.001), s(f32::INFINITY))
    );
}

#[test]
fn moving_sphere_keeps_its_parts() {
    let m = Material::Dielectric(Dielectric::new(s(1.5)));
    let ball = MovingSphere::new(v([0.0, 0.0, -1.0]), v([0.0, 0.5, -1.0]), s(0.0), s(1.0), s(0.5), m);
    assert_eq!(ball.center0, v([0.0, 0.0, -1.0]));
    assert_eq!(ball.center1, v([0.0, 0.5, -1.0]));
    assert_eq!(ball.time0, s(0.0));
    assert_eq!(ball.time1, s(1.0));
    assert_eq!(ball.radius, s(0.5));
    assert_eq!(ball.mat, m);
}

#[test]
fn moving_sphere_moves_on_a_line() {
    let ball = MovingSphere::new(v([0.0, 0.0, -1.0]), v([0.0, 0.5, -1.0]), s(0.0), s(1.0), s(0.5), grey());
    assert_eq!(a(ball.center(s(0.0))), [0.0, 0.0, -1.0]);
    assert_eq!(a(ball.center(s(1.0))), [0.0, 0.5, -1.0]);
    assert_eq!(a(ball.center(s(0.5))), [0.0, 0.25, -1.0]);
    // no clamping outside the interval
    assert_eq!(a(ball.center(s(2.0))), [0.0, 1.0, -1.0]);
    assert_eq!(a(ball.center(s(-1.0))), [0.0, -0.5, -1.0]);
    let other = MovingSphere::new(v([1.0, 0.2, 3.0]), v([1.0, 0.55, 3.0]), s(0.0), s(0.1), s(0.2), grey());
    let share = (0.03f32 - 0.0) / (0.1 - 0.0);
    assert_eq!(a(other.center(s(0.03))), [1.0 + share * (1.0 - 1.0), 0.2 + share * (0.55 - 0.2), 3.0 + share * 0.0]);
}

#[test]
fn moving_sphere_is_hit_where_it_stands_at_the_time_of_the_ray() {
    let ball = MovingSphere::new(v([0.0, 0.0, -1.0]), v([0.0, 2.0, -1.0]), s(0.0), s(1.0), s(0.5), grey());
    let early = Ray::new(v([0.0, 0.0, 0.0]), v([0.0, 0.0, -1.0]), s(0.0));
    let late = Ray::new(v([0.0, 0.0, 0.0]), v([0.0, 0.0, -1.0]), s(1.0));
    let lifted = Ray::new(v([0.0, 2.0, 0.0]), v([0.0, 0.0, -1.0]), s(1.0));
    let rec = ball.hit(&early, s(0.001), s(f32::INFINITY)).expect("the sphere is in the way at first");
    assert_eq!(f(rec.t), 0.5);
    assert_eq!(a(rec.normal), [0.0, 0.0, 1.0]);
    assert!(rec.front_face);
    assert_eq!(ball.hit(&late, s(0.001), s(f32::INFINITY)), None);
    let rec = ball.hit(&lifted, s(0.001), s(f32::INFINITY)).expect("the sphere has moved up");
    assert_eq!(f(rec.t), 0.5);
    assert_eq!(a(rec.p), [0.0, 2.0, -0.5]);
    assert_eq!(ball.hit(&lifted, s(0.001), s(0.5)), None);
}

#[test]
fn moving_sphere_agrees_with_the_hardware() {
    let ball = MovingSphere::new(v([0.0, 0.0, -1.0]), v([0.3, 0.5, -1.2]), s(0.0), s(0.1), s(0.5), grey());
    for (i, (origin, direction)) in rays().into_iter().enumerate() {
        let time = 0.1 * (i % 11) as f32 / 10.0;
        let share = (time - 0.0) / (0.1 - 0.0);
        let center = [0.0 + share * (0.3 - 0.0), 0.0 + share * (0.5 - 0.0), -1.0 + share * (-1.2 - -1.0)];
        let got = ball.hit(&Ray::new(v(origin), v(direction), s(time)), s(0.001), s(f32::INFINITY));
        let want = reference(origin, direction, center, 0.5, 0.001, f32::INFINITY);
        match (got, want) {
            (None, None) => {}
            (Some(rec), Some((t, p, n, front))) => {
                assert_eq!(f(rec.t).to_bits(), t.to_bits());
                assert_eq!(a(rec.p).map(f32::to_bits), p.map(f32::to_bits));
                assert_eq!(a(rec.normal).map(f32::to_bits), n.map(f32::to_bits));
                assert_eq!(rec.front_face, front);
            }
            (got, want) => panic!("{:?} for {:?}", got, want),
        }
    }
}

#[test]
fn a_ray_that_starts_just_under_the_surface_leaves_unseen() {
    // the start lies inside, but the way out is shorter than a thousandth
    let r = ray([0.0, 0.0, -0.5004], [0.0, 0.0, 1.0]);
    assert_eq!(ball().hit(&r, s(0.001), s(f32::INFINITY)), None);
    let rec = ball().hit(&r, s(0.0), s(f32::INFINITY)).expect("the way out counts from zero on");
    assert!(f(rec.t) > 0.0 && f(rec.t) < 0.001);
    assert!(!rec.front_face);
}

#[test]
fn a_sphere_too_small_for_its_normal() {
    // the radius is the smallest number above zero: the normal overflows
    let speck = Sphere::new(v([0.0, 0.0, 0.0]), s(f32::from_bits(1)), grey());
    let r = ray([1e-6, 0.0, 1.0], [0.0, 0.0, -1.0]);
    let rec = speck.hit(&r, s(0.001), s(f32::INFINITY)).expect("the ray passes within the rounding of the centre");
    assert_eq!(f(rec.t), 1.0);
    assert_eq!(f(rec.normal.x).abs(), f32::INFINITY);
    assert!(f(Vector3::dot(&r.direction, &rec.normal)).is_nan());
    assert!(!rec.front_face);
}
