use raytrace::camera::Camera;
use raytrace::colors::{clamp, pixel};
use raytrace::hittable::Hittable;
use raytrace::hittable_list::HittableList;
use raytrace::materials::{Dielectric, Draw, Lambertian, Material, Metal};
use raytrace::radiance::{background, coloray, interval, sky_blue, white};
use raytrace::rays::Ray;
use raytrace::scalar::Scalar;
use raytrace::sphere::Sphere;
use raytrace::vectors::Vector3;

fn s(x: f32) -> Scalar {
    Scalar::from_bits(x.to_bits())
}

fn f(x: Scalar) -> f32 {
    f32::from_bits(x.to_bits())
}

fn v(a: [f32; 3]) -> Vector3 {
    Vector3::new(s(a[0]), s(a[1]), s(a[2]))
}

fn a(v: Vector3) -> [f32; 3] {
    [f(v.x), f(v.y), f(v.z)]
}

fn same(got: Vector3, want: [f32; 3]) -> bool {
    let g = a(got);
    (0..3).all(|i| g[i].to_bits() == want[i].to_bits() || (g[i].is_nan() && want[i].is_nan()))
}

fn draw() -> Draw {
    Draw { unit: v([0.6, 0.0, 0.8]), ball: v([0.3, -0.2, 0.5]), uniform: s(0.5) }
}

fn draws(n: usize) -> Vec<Draw> {
    let mut out = Vec::new();
    let mut state: u32 = 0x5eed_1234;
    let mut next = move || {
        state = state.wrapping_mul(1_664_525).wrapping_add(1_013_904_223);
        (state >> 8) as f32 / 16_777_216.0
    };
    for _ in 0..n {
        let ball = loop {
            let p = v([2.0 * next() - 1.0, 2.0 * next() - 1.0, 2.0 * next() - 1.0]);
            if p.in_unit_ball() {
                break p;
            }
        };
        let unit = loop {
            let p = v([2.0 * next() - 1.0, 2.0 * next() - 1.0, 2.0 * next() - 1.0]);
            if p.in_unit_ball() {
                break p.normalized();
            }
        };
        out.push(Draw { unit, ball, uniform: s(next()) });
    }
    out
}

fn scene() -> HittableList<Sphere> {
    let mut world = HittableList::new();
    world.add(Sphere::new(v([0.0, -100.5, -1.0]), s(100.0), Material::Lambertian(Lambertian::new(v([0.8, 0.8, 0.0])))));
    world.add(Sphere::new(v([0.0, 0.0, -1.0]), s(0.5), Material::Lambertian(Lambertian::new(v([0.1, 0.2, 0.5])))));
    world.add(Sphere::new(v([-1.0, 0.0, -1.0]), s(0.5), Material::Dielectric(Dielectric::new(s(1.5)))));
    world.add(Sphere::new(v([1.0, 0.0, -1.0]), s(0.5), Material::Metal(Metal::new(v([0.8, 0.6, 0.2]), s(0.3)))));
    world
}

fn sky(direction: [f32; 3]) -> [f32; 3] {
    let k = 1.0 / (direction[0] * direction[0] + direction[1] * direction[1] + direction[2] * direction[2]).sqrt();
    let t = (direction[1] * k + 1.0) * 0.5;
    [(1.0 - t) * 1.0 + t * 0.5, (1.0 - t) * 1.0 + t * 0.7, (1.0 - t) * 1.0 + t * 1.0]
}

/// The estimator written out with the public parts of the library.
fn by_hand(r: &Ray, world: &HittableList<Sphere>, depth: u8, draws: &[Draw]) -> Vector3 {
    if depth == 0 {
        return Vector3::zeros();
    }
    let (t_min, t_max) = interval();
    match world.hit(r, t_min, t_max) {
        Some(rec) => {
            let scattered = rec.mat.get_scatter_ray(r, &rec, &draws[0]);
            if rec.mat.scatter(&rec, &scattered) {
                rec.mat.get_attenuation().mul(by_hand(&scattered, world, depth - 1, &draws[1..]))
            } else {
                Vector3::zeros()
            }
        }
        None => background(r),
    }
}

#[test]
fn no_depth_is_black() {
    let r = Ray::new(v([0.0, 0.0, 0.0]), v([0.0, 0.0, -1.0]), s(0.0));
    assert_eq!(coloray(&r, &scene(), 0, &Vec::new()), Vector3::zeros());
    assert_eq!(coloray(&r, &scene(), 0, &draws(3)), Vector3::zeros());
    let empty: HittableList<Sphere> = HittableList::new();
    assert_eq!(coloray(&r, &empty, 0, &Vec::new()), Vector3::zeros());
    let up = Ray::new(v([0.0, 0.0, 0.0]), v([0.0, 1.0, 0.0]), s(0.0));
    assert_eq!(coloray(&up, &scene(), 0, &Vec::new()), Vector3::zeros());
}

#[test]
fn a_ray_straight_up_through_an_empty_scene_is_sky_blue() {
    let world: HittableList<Sphere> = HittableList::new();
    let r = Ray::new(v([0.0, 0.0, 0.0]), v([0.0, 1.0, 0.0]), s(0.0));
    assert_eq!(a(coloray(&r, &world, 50, &draws(50))), [0.5, 0.7, 1.0]);
    assert_eq!(a(coloray(&r, &world, 1, &draws(1))), [0.5, 0.7, 1.0]);
    assert_eq!(a(background(&r)), [0.5, 0.7, 1.0]);
}

#[test]
fn the_sky_runs_from_white_to_blue() {
    assert_eq!(a(white()), [1.0, 1.0, 1.0]);
    assert_eq!(a(sky_blue()), [0.5, 0.7, 1.0]);
    let down = Ray::new(v([0.0, 0.0, 0.0]), v([0.0, -2.0, 0.0]), s(0.0));
    assert_eq!(a(background(&down)), [1.0, 1.0, 1.0]);
    let level = Ray::new(v([0.0, 0.0, 0.0]), v([0.0, 0.0, -1.0]), s(0.0));
    assert_eq!(a(background(&level)), [0.75, 0.5 * 1.0 + 0.5 * 0.7, 1.0]);
    for d in [[0.3f32, 0.4, -0.5], [1.0, 2.0, 3.0], [-4.0, -0.1, 0.2]] {
        assert!(same(background(&Ray::new(v([0.0, 0.0, 0.0]), v(d), s(0.0))), sky(d)));
    }
}

#[test]
fn meetings_count_from_a_thousandth_on() {
    let ends = interval();
    assert_eq!(f(ends.0), 0.001);
    assert_eq!(f(ends.1), f32::INFINITY);
}

#[test]
fn an_absorbed_ray_is_black() {
    // a metal whose blur pushes the mirrored ray into the surface
    let mut world = HittableList::new();
    world.add(Sphere::new(v([0.0, 0.0, -1.0]), s(0.5), Material::Metal(Metal::new(v([0.8, 0.6, 0.2]), s(1.0)))));
    let r = Ray::new(v([0.0, 0.0, 0.0]), v([0.3, 0.0, -1.0]), s(0.0));
    let into = Draw { unit: v([0.0, 1.0, 0.0]), ball: v([0.0, 0.0, -0.99]), uniform: s(0.5) };
    assert_eq!(coloray(&r, &world, 5, &vec![into; 5]), Vector3::zeros());
}

#[test]
fn one_bounce_off_a_diffuse_sphere() {
    let mut world = HittableList::new();
    world.add(Sphere::new(v([0.0, 0.0, -1.0]), s(0.5), Material::Lambertian(Lambertian::new(v([0.1, 0.2, 0.5])))));
    let r = Ray::new(v([0.0, 0.0, 0.0]), v([0.0, 0.0, -1.0]), s(0.0));
    // scattered at (0, 0, -0.5) along the normal (0, 0, 1) plus the draw
    let got = coloray(&r, &world, 2, &vec![draw(); 2]);
    let beyond = sky([0.6, 0.0, 1.8]);
    assert!(same(got, [0.1 * beyond[0], 0.2 * beyond[1], 0.5 * beyond[2]]));
    // with one bounce allowed the scattered ray is not followed
    assert_eq!(coloray(&r, &world, 1, &vec![draw(); 1]), Vector3::zeros());
}

#[test]
fn a_mirror_shows_the_sky() {
    let mut world = HittableList::new();
    world.add(Sphere::new(v([0.0, 0.0, -1.0]), s(0.5), Material::Metal(Metal::new(v([0.8, 0.6, 0.2]), s(0.0)))));
    let r = Ray::new(v([0.0, 0.0, 0.0]), v([0.0, 0.0, -1.0]), s(0.0));
    let got = coloray(&r, &world, 50, &draws(50));
    let back = sky([0.0, 0.0, 1.0]);
    assert!(same(got, [0.8 * back[0], 0.6 * back[1], 0.2 * back[2]]));
}

#[test]
fn tracing_twice_gives_the_same_colour() {
    let mut world = HittableList::new();
    world.add(Sphere::new(v([0.0, -100.5, -1.0]), s(100.0), Material::Metal(Metal::new(v([0.8, 0.8, 0.8]), s(0.0)))));
    world.add(Sphere::new(v([0.0, 0.0, -1.0]), s(0.5), Material::Metal(Metal::new(v([0.8, 0.6, 0.2]), s(0.0)))));
    let chance = draws(50);
    for d in [[0.0f32, 0.0, -1.0], [0.1, -0.3, -1.0], [0.4, 0.2, -1.0]] {
        let r = Ray::new(v([0.0, 0.0, 0.0]), v(d), s(0.0));
        let first = coloray(&r, &world, 50, &chance);
        let second = coloray(&r, &world, 50, &chance);
        assert_eq!(first, second);
        // without fuzz the draws do not matter
        assert_eq!(first, coloray(&r, &world, 50, &vec![draw(); 50]));
    }
}

#[test]
fn coloray_follows_the_path() {
    let world = scene();
    let chance = draws(12);
    let mut state: u32 = 0x0c01_0ca7;
    for _ in 0..120 {
        let mut c = [0.0f32; 2];
        for x in c.iter_mut() {
            state = state.wrapping_mul(1_664_525).wrapping_add(1_013_904_223);
            *x = (state >> 8) as f32 / 8_388_608.0 - 1.0;
        }
        let r = Ray::new(v([0.0, 0.0, 0.0]), v([1.5 * c[0], c[1], -1.0]), s(0.0));
        for depth in [1u8, 2, 5, 12] {
            assert_eq!(coloray(&r, &world, depth, &chance), by_hand(&r, &world, depth, &chance));
        }
    }
}

#[test]
fn colours_stay_between_black_and_white() {
    let world = scene();
    let chance = draws(50);
    for i in 0..40 {
        let x = -1.5 + 3.0 * (i as f32) / 39.0;
        let r = Ray::new(v([0.0, 0.0, 0.0]), v([x, 0.1, -1.0]), s(0.0));
        let c = a(coloray(&r, &world, 50, &chance));
        assert!(c.iter().all(|&channel| (0.0..=1.0).contains(&channel)));
    }
}

#[test]
fn clamp_keeps_what_is_inside() {
    assert_eq!(clamp(s(0.5), s(0.0), s(0.999)), s(0.5));
    assert_eq!(clamp(s(0.0), s(0.0), s(0.999)), s(0.0));
    assert_eq!(clamp(s(0.999), s(0.0), s(0.999)), s(0.999));
}

#[test]
fn clamp_cuts_what_is_outside() {
    assert_eq!(clamp(s(-0.5), s(0.0), s(0.999)), s(0.0));
    assert_eq!(clamp(s(1.0), s(0.0), s(0.999)), s(0.999));
    assert_eq!(clamp(s(f32::INFINITY), s(0.0), s(0.999)), s(0.999));
    assert_eq!(clamp(s(f32::NEG_INFINITY), s(0.0), s(0.999)), s(0.0));
}

#[test]
fn clamp_passes_what_is_no_number() {
    assert!(clamp(s(f32::NAN), s(0.0), s(0.999)).is_nan());
}

#[test]
fn clamp_agrees_with_the_comparisons_of_the_hardware() {
    let xs = [-2.0f32, -0.0, 0.0, 0.25, 0.999, 1.0, 3.5, f32::INFINITY, f32::NEG_INFINITY];
    for x in xs {
        let want = if x < 0.0 { 0.0 } else if x > 0.999 { 0.999 } else { x };
        assert_eq!(f(clamp(s(x), s(0.0), s(0.999))).to_bits(), want.to_bits());
    }
}

fn reference_pixel(sum: [f32; 3], samples: u32) -> (u8, u8, u8) {
    let scale = 1.0 / (samples as f32);
    let clamp = |x: f32| if x < 0.0 { 0.0 } else if x > 0.999 { 0.999 } else { x };
    let channel = |x: f32| (256.0 * clamp((x * scale).sqrt())) as u8;
    (channel(sum[0]), channel(sum[1]), channel(sum[2]))
}

#[test]
fn pixel_of_simple_colours() {
    assert_eq!(pixel(v([0.0, 0.0, 0.0]), 100), (0, 0, 0));
    assert_eq!(pixel(v([100.0, 100.0, 100.0]), 100), (255, 255, 255));
    assert_eq!(pixel(v([25.0, 0.0, 100.0]), 100), (128, 0, 255));
    assert_eq!(pixel(v([1.0, 4.0, 9.0]), 16), (64, 128, 192));
    // what is too bright is cut, what is no light at all is black
    assert_eq!(pixel(v([1e9, -3.0, f32::NAN]), 100), (255, 0, 0));
}

#[test]
fn pixel_agrees_with_the_hardware() {
    let mut state: u32 = 0x0ddc_0ffe;
    for _ in 0..20_000 {
        let mut c = [0.0f32; 3];
        for x in c.iter_mut() {
            state = state.wrapping_mul(1_664_525).wrapping_add(1_013_904_223);
            *x = (state >> 8) as f32 / 16_777_216.0 * 110.0 - 5.0;
        }
        for samples in [1u32, 7, 100] {
            assert_eq!(pixel(v(c), samples), reference_pixel(c, samples));
        }
    }
}

fn camera(time0: f32, time1: f32) -> Camera {
    let vfov: f32 = 20.0;
    Camera::new(
        Vector3::newi(13, 2, 3),
        Vector3::zeros(),
        Vector3::newi(0, 1, 0),
        s((vfov.to_radians() / 2.0).tan()),
        s(16.0 / 9.0),
        s(0.1),
        s(10.0),
        s(time0),
        s(time1),
    )
}

#[test]
fn camera_looks_down_its_axis() {
    let vfov: f32 = 90.0;
    let cam = Camera::new(
        Vector3::zeros(),
        Vector3::newi(0, 0, -1),
        Vector3::newi(0, 1, 0),
        s(1.0),
        s(2.0),
        s(0.0),
        s(1.0),
        s(0.0),
        s(0.0),
    );
    assert!(((vfov.to_radians() / 2.0).tan() - 1.0).abs() < 1e-6);
    assert_eq!(a(cam.origin), [0.0, 0.0, 0.0]);
    assert_eq!(a(cam.u), [1.0, 0.0, 0.0]);
    assert_eq!(a(cam.v), [0.0, 1.0, 0.0]);
    assert_eq!(a(cam.horizontal), [4.0, 0.0, 0.0]);
    assert_eq!(a(cam.vertical), [0.0, 2.0, 0.0]);
    assert_eq!(a(cam.lower_left_corner), [-2.0, -1.0, -1.0]);
    assert_eq!(f(cam.lens_radius), 0.0);
    let centre = cam.get_ray(s(0.5), s(0.5), v([0.3, 0.4, 0.0]), s(0.7));
    assert_eq!(a(centre.origin), [0.0, 0.0, 0.0]);
    assert_eq!(a(centre.direction), [0.0, 0.0, -1.0]);
    let corner = cam.get_ray(s(0.0), s(0.0), v([0.3, 0.4, 0.0]), s(0.7));
    assert_eq!(a(corner.direction), [-2.0, -1.0, -1.0]);
    let top = cam.get_ray(s(1.0), s(1.0), v([0.3, 0.4, 0.0]), s(0.7));
    assert_eq!(a(top.direction), [2.0, 1.0, -1.0]);
}

#[test]
fn camera_agrees_with_the_hardware() {
    let cam = camera(0.0, 0.1);
    let h = (20.0f32.to_radians() / 2.0).tan();
    let viewport_height = 2.0 * h;
    let viewport_width = (16.0f32 / 9.0) * viewport_height;
    let from = [13.0f32, 2.0, 3.0];
    let unit = |d: [f32; 3]| {
        let k = 1.0 / (d[0] * d[0] + d[1] * d[1] + d[2] * d[2]).sqrt();
        [d[0] * k, d[1] * k, d[2] * k]
    };
    let cross = |p: [f32; 3], q: [f32; 3]| [p[1] * q[2] - p[2] * q[1], p[2] * q[0] - p[0] * q[2], p[0] * q[1] - p[1] * q[0]];
    let w = unit([from[0] - 0.0, from[1] - 0.0, from[2] - 0.0]);
    let u = unit(cross([0.0, 1.0, 0.0], w));
    let up = cross(w, u);
    let horizontal = [10.0 * viewport_width * u[0], 10.0 * viewport_width * u[1], 10.0 * viewport_width * u[2]];
    let vertical = [10.0 * viewport_height * up[0], 10.0 * viewport_height * up[1], 10.0 * viewport_height * up[2]];
    let mut corner = [0.0f32; 3];
    for i in 0..3 {
        corner[i] = from[i] - horizontal[i] / 2.0 - vertical[i] / 2.0 - 10.0 * w[i];
    }
    assert!(same(cam.u, u));
    assert!(same(cam.v, up));
    assert!(same(cam.horizontal, horizontal));
    assert!(same(cam.vertical, vertical));
    assert!(same(cam.lower_left_corner, corner));
    assert_eq!(f(cam.lens_radius), 0.1f32 / 2.0);
    assert_eq!(a(cam.origin), from);

    let lens = [0.3f32, -0.4, 0.0];
    let (sx, ty) = (0.25f32, 0.6f32);
    let rd = [0.05 * lens[0], 0.05 * lens[1], 0.05 * lens[2]];
    let mut offset = [0.0f32; 3];
    let mut direction = [0.0f32; 3];
    let mut origin = [0.0f32; 3];
    for i in 0..3 {
        offset[i] = u[i] * rd[0] + up[i] * rd[1];
        origin[i] = from[i] + offset[i];
        direction[i] = corner[i] + sx * horizontal[i] + ty * vertical[i] - from[i] - offset[i];
    }
    let r = cam.get_ray(s(sx), s(ty), v(lens), s(0.04));
    assert!(same(r.origin, origin));
    assert!(same(r.direction, direction));
    assert_eq!(f(r.time), 0.04);
}

#[test]
fn an_open_shutter_blurs() {
    let cam = camera(0.0, 0.1);
    assert!(cam.blurs());
    assert_eq!(cam.get_ray(s(0.5), s(0.5), v([0.0, 0.0, 0.0]), s(0.04)).time, s(0.04));
}

#[test]
fn a_shutter_without_interval_gives_its_opening_time() {
    let cam = camera(0.5, 0.5);
    assert!(!cam.blurs());
    assert_eq!(cam.get_ray(s(0.5), s(0.5), v([0.0, 0.0, 0.0]), s(0.04)).time, s(0.5));
    let backwards = camera(1.0, 0.0);
    assert!(!backwards.blurs());
    assert_eq!(backwards.get_ray(s(0.5), s(0.5), v([0.0, 0.0, 0.0]), s(0.5)).time, s(1.0));
    assert!(!camera(0.0, f32::NAN).blurs());
}
