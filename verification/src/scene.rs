//! A scene of many small spheres around three large ones.
use crate::hittable_list::HittableList;
use crate::materials::{Dielectric, Lambertian, Material, Metal};
use crate::moving_sphere::MovingSphere;
use crate::scalar::Scalar;
use crate::sphere::Sphere;
use crate::surface::Surface;
use crate::vectors::{Color, Point3, Vector3};
use vstd::prelude::*;

verus! {

/// The small spheres stand on a square grid of this many places a side.
pub const SIDE: usize = 22;

/// What chance contributes to one place of the grid. The caller draws all
/// of it; what the place does not need is not read.
#[derive(Clone, Copy, Debug, PartialEq, Eq, Structural)]
pub struct Cell {
    /// From zero up to one: chooses the material.
    pub choose_mat: Scalar,
    /// From zero up to one: how far the sphere stands from its place, along x.
    pub shift_x: Scalar,
    /// From zero up to one: how far the sphere stands from its place, along z.
    pub shift_z: Scalar,
    /// A colour, each component from zero up to one: the albedo of a diffuse
    /// sphere is its product with `shade`.
    pub tint: Color,
    /// A colour, each component from zero up to one.
    pub shade: Color,
    /// From zero up to a half: how far a diffuse sphere rises while the
    /// shutter is open.
    pub lift: Scalar,
    /// Each component from a half to one: the albedo of a metal sphere.
    pub shine: Color,
    /// From zero up to a half: the fuzz of a metal sphere.
    pub fuzz: Scalar,
}

/// The quotient of two whole numbers, rounded.
pub open spec fn spec_decimal(n: int, d: int) -> Scalar {
    crate::convert::whole(n).spec_div(crate::convert::whole(d))
}

/// The quotient of two whole numbers, rounded: for whole numbers that the
/// format holds, the number nearest to their ratio.
pub fn decimal(n: i32, d: i32) -> (r: Scalar)
    ensures
        r == spec_decimal(n as int, d as int),
{
    Scalar::from_i32(n).div(Scalar::from_i32(d))
}

/// Where the small sphere of the place `(i, j)` stands: at `(i + 0.9
/// shift_x, 0.2, j + 0.9 shift_z)`.
pub open spec fn spec_center(i: int, j: int, cell: Cell) -> Point3 {
    Vector3 {
        x: crate::convert::whole(i).spec_add(spec_decimal(9, 10).spec_mul(cell.shift_x)),
        y: spec_decimal(2, 10),
        z: crate::convert::whole(j).spec_add(spec_decimal(9, 10).spec_mul(cell.shift_z)),
    }
}

/// The small sphere of the place `(i, j)`, of radius 0.2. There is none
/// unless its centre lies further than 0.9 from `(4, 0.2, 0)`, where a large
/// sphere stands. Of the others, those with `choose_mat` below 0.8 are
/// diffuse and rise by `lift` between the times 0 and 0.1, those with
/// `choose_mat` below 0.95 are of metal, and the rest of glass.
pub open spec fn spec_place(i: int, j: int, cell: Cell) -> Option<Surface> {
    let center = spec_center(i, j, cell);
    let large = Vector3 { x: crate::convert::whole(4), y: spec_decimal(2, 10), z: Scalar::spec_zero() };
    let radius = spec_decimal(2, 10);
    if !center.spec_sub(large).spec_magnitude().spec_gt(spec_decimal(9, 10)) {
        None
    } else if cell.choose_mat.spec_lt(spec_decimal(8, 10)) {
        let lifted = center.spec_add(Vector3 { x: Scalar::spec_zero(), y: cell.lift, z: Scalar::spec_zero() });
        Some(
            Surface::MovingSphere(
                MovingSphere {
                    center0: center,
                    center1: lifted,
                    time0: Scalar::spec_zero(),
                    time1: spec_decimal(1, 10),
                    radius,
                    mat: Material::Lambertian(Lambertian { albedo: cell.tint.spec_mul(cell.shade) }),
                },
            ),
        )
    } else if cell.choose_mat.spec_lt(spec_decimal(95, 100)) {
        Some(
            Surface::Sphere(
                Sphere {
                    center,
                    radius,
                    mat: Material::Metal(Metal { albedo: cell.shine, fuzz: crate::materials::unit_fuzz(cell.fuzz) }),
                },
            ),
        )
    } else {
        Some(Surface::Sphere(Sphere { center, radius, mat: Material::Dielectric(Dielectric { ir: spec_decimal(15, 10) }) }))
    }
}

/// The ground: a diffuse grey sphere of radius 1000 whose top is at height
/// zero.
pub open spec fn spec_ground() -> Surface {
    Surface::Sphere(
        Sphere {
            center: Vector3 { x: Scalar::spec_zero(), y: crate::convert::whole(-1000), z: Scalar::spec_zero() },
            radius: crate::convert::whole(1000),
            mat: Material::Lambertian(Lambertian { albedo: Vector3::spec_fromv(spec_decimal(5, 10)) }),
        },
    )
}

/// The three large spheres of radius one: of glass in the middle, diffuse
/// behind it and of polished metal before it.
pub open spec fn spec_large() -> Seq<Surface> {
    let one = crate::convert::whole(1);
    let zero = crate::convert::whole(0);
    seq![
        Surface::Sphere(
            Sphere {
                center: Vector3 { x: zero, y: one, z: zero },
                radius: one,
                mat: Material::Dielectric(Dielectric { ir: spec_decimal(15, 10) }),
            },
        ),
        Surface::Sphere(
            Sphere {
                center: Vector3 { x: crate::convert::whole(-4), y: one, z: zero },
                radius: one,
                mat: Material::Lambertian(
                    Lambertian {
                        albedo: Vector3 { x: spec_decimal(4, 10), y: spec_decimal(2, 10), z: spec_decimal(1, 10) },
                    },
                ),
            },
        ),
        Surface::Sphere(
            Sphere {
                center: Vector3 { x: crate::convert::whole(4), y: one, z: zero },
                radius: one,
                mat: Material::Metal(
                    Metal {
                        albedo: Vector3 { x: spec_decimal(7, 10), y: spec_decimal(6, 10), z: spec_decimal(5, 10) },
                        fuzz: crate::materials::unit_fuzz(Scalar::spec_zero()),
                    },
                ),
            },
        ),
    ]
}

/// The small spheres of the first `n` places, row by row: the place `k`
/// is `(k / 22 - 11, k % 22 - 11)`.
pub open spec fn spec_small(cells: Seq<Cell>, n: nat) -> Seq<Surface>
    decreases n,
{
    if n == 0 {
        Seq::empty()
    } else {
        let k = (n - 1) as int;
        let before = spec_small(cells, (n - 1) as nat);
        match spec_place(k / (SIDE as int) - 11, k % (SIDE as int) - 11, cells[k]) {
            Some(s) => before.push(s),
            None => before,
        }
    }
}

/// The scene: the ground, the small spheres of all places, and the three
/// large spheres.
pub open spec fn spec_scene(cells: Seq<Cell>) -> Seq<Surface> {
    seq![spec_ground()] + spec_small(cells, (SIDE * SIDE) as nat) + spec_large()
}

/// The small sphere of the place `(i, j)`, if one stands there.
pub fn place(i: i32, j: i32, cell: &Cell) -> (s: Option<Surface>)
    ensures
        s == spec_place(i as int, j as int, *cell),
{
    let center = Point3::new(
        Scalar::from_i32(i).add(decimal(9, 10).mul(cell.shift_x)),
        decimal(2, 10),
        Scalar::from_i32(j).add(decimal(9, 10).mul(cell.shift_z)),
    );
    let large = Point3::new(Scalar::from_i32(4), decimal(2, 10), Scalar::zero());
    if !center.sub(large).magnitude().gt(decimal(9, 10)) {
        return None;
    }
    if cell.choose_mat.lt(decimal(8, 10)) {
        // diffuse
        let albedo = cell.tint.mul(cell.shade);
        let sphere_material = Material::Lambertian(Lambertian::new(albedo));
        let center2 = center.add(Vector3::new(Scalar::zero(), cell.lift, Scalar::zero()));
        Some(
            Surface::MovingSphere(
                MovingSphere::new(center, center2, Scalar::zero(), decimal(1, 10), decimal(2, 10), sphere_material),
            ),
        )
    } else if cell.choose_mat.lt(decimal(95, 100)) {
        // metal
        let sphere_material = Material::Metal(Metal::new(cell.shine, cell.fuzz));
        Some(Surface::Sphere(Sphere::new(center, decimal(2, 10), sphere_material)))
    } else {
        // glass
        let sphere_material = Material::Dielectric(Dielectric::new(decimal(15, 10)));
        Some(Surface::Sphere(Sphere::new(center, decimal(2, 10), sphere_material)))
    }
}

/// The scene, for what chance contributes to each place of the grid, row by
/// row.
pub fn random_scene(cells: &Vec<Cell>) -> (world: HittableList<Surface>)
    requires
        cells.len() == SIDE * SIDE,
    ensures
        world@ == spec_scene(cells@),
{
    let mut world = HittableList::new();

    let ground = Material::Lambertian(Lambertian::new(Color::fromv(decimal(5, 10))));
    world.add(
        Surface::Sphere(
            Sphere::new(
                Point3::new(Scalar::zero(), Scalar::from_i32(-1000), Scalar::zero()),
                Scalar::from_i32(1000),
                ground,
            ),
        ),
    );

    let mut k: usize = 0;
    while k < SIDE * SIDE
        invariant
            k <= SIDE * SIDE,
            cells.len() == SIDE * SIDE,
            world@ == seq![spec_ground()] + spec_small(cells@, k as nat),
        decreases SIDE * SIDE - k,
    {
        let i: i32 = (k / SIDE) as i32 - 11;
        let j: i32 = (k % SIDE) as i32 - 11;
        match place(i, j, &cells[k]) {
            Some(s) => {
                proof {
                    assert((seq![spec_ground()] + spec_small(cells@, k as nat)).push(s) =~= seq![spec_ground()]
                        + spec_small(cells@, k as nat).push(s));
                }
                world.add(s);
            },
            None => {},
        }
        k += 1;
    }

    let m1 = Material::Dielectric(Dielectric::new(decimal(15, 10)));
    world.add(Surface::Sphere(Sphere::new(Point3::newi(0, 1, 0), Scalar::from_i32(1), m1)));

    let m2 = Material::Lambertian(Lambertian::new(Color::new(decimal(4, 10), decimal(2, 10), decimal(1, 10))));
    world.add(Surface::Sphere(Sphere::new(Point3::newi(-4, 1, 0), Scalar::from_i32(1), m2)));

    let m3 = Material::Metal(Metal::new(Color::new(decimal(7, 10), decimal(6, 10), decimal(5, 10)), Scalar::zero()));
    world.add(Surface::Sphere(Sphere::new(Point3::newi(4, 1, 0), Scalar::from_i32(1), m3)));

    proof {
        let small = seq![spec_ground()] + spec_small(cells@, (SIDE * SIDE) as nat);
        assert(world@ =~= small + spec_large());
    }
    world
}

} // verus!
