//! The scene: four spheres over the floor, and a sphere around all of them.
//!
//! Lengths, colours and angles are in thousandths, so that the scene is exact.

use crate::checker::FLOOR_Y;
use crate::screen::SPHERES;
use vstd::prelude::*;

verus! {

/// Centre of a sphere that contains every sphere of the scene at every point
/// of the animation. Most of the screen is sky or distant floor, and one test
/// against this bound rejects all spheres at once.
pub const BOUND_X: i32 = 0;

pub const BOUND_Y: i32 = -100;

pub const BOUND_Z: i32 = 500;

/// Radius of that sphere.
pub const BOUND_RADIUS: i32 = 3300;

/// Height around which the orbiting spheres bob, and how far they do.
pub const BOB_Y: i32 = -150;

pub const BOB_HEIGHT: i32 = 350;

/// Distance of the middle of the orbit from the origin, away from the camera's
/// first position.
pub const ORBIT_Z: i32 = 400;

/// How a sphere moves.
#[derive(Clone, Copy, Debug, PartialEq, Eq, Structural)]
pub enum Path {
    /// It stands still.
    Fixed { x: i32, y: i32, z: i32 },
    /// It goes round the middle of the orbit at a distance of `radius`, turning
    /// by `speed` a second from `phase` on, and bobs up and down at a rate of
    /// its own.
    Orbit { phase: i32, radius: i32, speed: i32, bob: i32 },
}

/// One sphere of the scene.
#[derive(Clone, Copy, Debug)]
pub struct SphereData {
    pub path: Path,
    pub radius: i32,
    /// Red, green and blue.
    pub albedo: [i32; 3],
    /// 0 is matte, 1000 is a mirror.
    pub mirror: i32,
}

/// The path of each sphere: a mirror in the middle, and three that orbit it a
/// third of a turn apart.
pub open spec fn path_of(i: int) -> Path {
    if i == 0 {
        Path::Fixed { x: 0, y: 150, z: 600 }
    } else if i == 1 {
        Path::Orbit { phase: 0, radius: 2100, speed: 900, bob: 1700 }
    } else if i == 2 {
        Path::Orbit { phase: 2094, radius: 2100, speed: 900, bob: 1300 }
    } else {
        Path::Orbit { phase: 4188, radius: 2100, speed: 900, bob: 2100 }
    }
}

/// The radius of each sphere.
pub open spec fn radius_of(i: int) -> int {
    if i == 0 {
        1050
    } else {
        500
    }
}

/// The colour of each sphere.
pub open spec fn albedo_of(i: int) -> Seq<i32> {
    if i == 0 {
        seq![920i32, 940, 970]
    } else if i == 1 {
        seq![900i32, 240, 180]
    } else if i == 2 {
        seq![200i32, 620, 900]
    } else {
        seq![960i32, 780, 160]
    }
}

/// How mirrored each sphere is.
pub open spec fn shine_of(i: int) -> int {
    if i == 0 {
        850
    } else {
        250
    }
}

/// The spheres of the scene.
pub fn scene() -> (r: [SphereData; 4])
    ensures
        forall|i: int|
            0 <= i < SPHERES ==> {
                &&& (#[trigger] r@[i]).path == path_of(i)
                &&& r@[i].radius == radius_of(i)
                &&& r@[i].albedo@ == albedo_of(i)
                &&& r@[i].mirror == shine_of(i)
            },
{
    let chrome: SphereData = SphereData {
        path: Path::Fixed { x: 0, y: 150, z: 600 },
        radius: 1050,
        albedo: [920, 940, 970],
        mirror: 850,
    };
    let red: SphereData = SphereData {
        path: Path::Orbit { phase: 0, radius: 2100, speed: 900, bob: 1700 },
        radius: 500,
        albedo: [900, 240, 180],
        mirror: 250,
    };
    let blue: SphereData = SphereData {
        path: Path::Orbit { phase: 2094, radius: 2100, speed: 900, bob: 1300 },
        radius: 500,
        albedo: [200, 620, 900],
        mirror: 250,
    };
    let yellow: SphereData = SphereData {
        path: Path::Orbit { phase: 4188, radius: 2100, speed: 900, bob: 2100 },
        radius: 500,
        albedo: [960, 780, 160],
        mirror: 250,
    };
    let r: [SphereData; 4] = [chrome, red, blue, yellow];
    proof {
        assert(chrome.albedo@ =~= albedo_of(0));
        assert(red.albedo@ =~= albedo_of(1));
        assert(blue.albedo@ =~= albedo_of(2));
        assert(yellow.albedo@ =~= albedo_of(3));
    }
    r
}

/// Where a path is at some moment, in thousandths of `unit`-ths. `cos` and
/// `sin` are those of the angle round the orbit and `lift` the sine of the
/// bobbing, all in `unit`-ths.
pub open spec fn place(path: Path, unit: int, cos: int, sin: int, lift: int) -> (int, int, int) {
    match path {
        Path::Fixed { x, y, z } => (x * unit, y * unit, z * unit),
        Path::Orbit { phase, radius, speed, bob } => (
            radius * cos,
            BOB_Y * unit + BOB_HEIGHT * lift,
            radius * sin + ORBIT_Z * unit,
        ),
    }
}

/// The square of a distance.
pub open spec fn dist2(a: (int, int, int), b: (int, int, int)) -> int {
    (a.0 - b.0) * (a.0 - b.0) + (a.1 - b.1) * (a.1 - b.1) + (a.2 - b.2) * (a.2 - b.2)
}

/// The centre of the bound, in thousandths of `unit`-ths.
pub open spec fn bound_centre(unit: int) -> (int, int, int) {
    (BOUND_X * unit, BOUND_Y * unit, BOUND_Z * unit)
}

/// The mirror stands still in the middle, larger and shinier than the three
/// spheres that orbit it.
pub proof fn law_mirror_in_the_middle(i: int)
    requires
        1 <= i < SPHERES,
    ensures
        path_of(0) is Fixed,
        path_of(i) is Orbit,
        radius_of(0) > radius_of(i) > 0,
        shine_of(0) > shine_of(i),
{
}

/// A sphere is anything between matte and a perfect mirror.
pub proof fn law_shine_is_a_share(i: int)
    ensures
        0 <= shine_of(i) <= 1000,
        radius_of(i) > 0,
{
}

/// The mirror's place does not depend on the moment.
pub proof fn law_mirror_stands_still(
    unit: int,
    cos1: int,
    sin1: int,
    lift1: int,
    cos2: int,
    sin2: int,
    lift2: int,
)
    ensures
        place(path_of(0), unit, cos1, sin1, lift1) == place(path_of(0), unit, cos2, sin2, lift2),
        place(path_of(0), unit, cos1, sin1, lift1) == (0int, 150 * unit, 600 * unit),
{
}

/// An orbiting sphere keeps its horizontal distance from the middle of the
/// orbit: the point on the circle at 2100 thousandths, whatever its height.
pub proof fn law_orbit_keeps_distance(i: int, unit: int, cos: int, sin: int, lift: int)
    requires
        1 <= i < SPHERES,
        cos * cos + sin * sin == unit * unit,
    ensures
        ({
            let (x, y, z) = place(path_of(i), unit, cos, sin, lift);
            let dz = z - ORBIT_Z * unit;
            x * x + dz * dz == (2100 * unit) * (2100 * unit)
        }),
{
    let p = place(path_of(i), unit, cos, sin, lift);
    assert(p.0 == 2100 * cos);
    assert(p.2 - ORBIT_Z * unit == 2100 * sin);
    assert((2100 * cos) * (2100 * cos) == 4410000 * (cos * cos)) by (nonlinear_arith);
    assert((2100 * sin) * (2100 * sin) == 4410000 * (sin * sin)) by (nonlinear_arith);
    assert((2100 * unit) * (2100 * unit) == 4410000 * (unit * unit)) by (nonlinear_arith);
}

/// Every sphere floats above the floor at every moment: the lowest point of its
/// bobbing leaves its bottom no lower than the checkerboard.
pub proof fn law_spheres_float_above_floor(i: int, unit: int, cos: int, sin: int, lift: int)
    requires
        0 <= i < SPHERES,
        unit > 0,
        -unit <= lift,
    ensures
        place(path_of(i), unit, cos, sin, lift).1 - radius_of(i) * unit >= 1000 * FLOOR_Y * unit,
{
    let p = place(path_of(i), unit, cos, sin, lift);
    assert(1000 * FLOOR_Y * unit == -1000 * unit);
    if i == 0 {
        assert(p.1 == 150 * unit);
        assert(radius_of(i) * unit == 1050 * unit);
    } else {
        assert(p.1 == -150 * unit + 350 * lift);
        assert(radius_of(i) * unit == 500 * unit);
    }
}

/// Every sphere is inside the bound at every moment: its centre is nearer to
/// the bound's centre than the two radii differ. The moment is any place on the
/// circle of the orbit, or within it, and any height of the bobbing, in
/// fractions as fine as one likes.
pub proof fn law_bound_contains_spheres(i: int, unit: int, cos: int, sin: int, lift: int)
    requires
        0 <= i < SPHERES,
        unit > 0,
        cos * cos + sin * sin <= unit * unit,
        -unit <= lift <= unit,
    ensures
        dist2(place(path_of(i), unit, cos, sin, lift), bound_centre(unit)) <= ((BOUND_RADIUS
            - radius_of(i)) * unit) * ((BOUND_RADIUS - radius_of(i)) * unit),
{
    let uu: int = unit * unit;
    let p = place(path_of(i), unit, cos, sin, lift);
    let b = bound_centre(unit);
    assert(b == (0int, -100 * unit, 500 * unit));
    if i == 0 {
        assert(p == (0int, 150 * unit, 600 * unit));
        assert((250 * unit) * (250 * unit) + (100 * unit) * (100 * unit) <= (2250 * unit) * (2250
            * unit)) by (nonlinear_arith);
        assert(p.0 - b.0 == 0);
        assert((BOUND_RADIUS - radius_of(i)) * unit == 2250 * unit);
        assert(p.1 - b.1 == 250 * unit);
        assert(p.2 - b.2 == 100 * unit);
    } else {
        assert(p == (2100 * cos, -150 * unit + 350 * lift, 2100 * sin + 400 * unit));
        assert(cos * cos >= 0) by (nonlinear_arith);
        assert(-unit <= sin) by (nonlinear_arith)
            requires
                sin * sin <= unit * unit,
                unit > 0,
        ;
        let dy: int = 350 * lift - 50 * unit;
        let dz: int = 2100 * sin - 100 * unit;
        assert((2100 * cos) * (2100 * cos) == 4410000 * (cos * cos)) by (nonlinear_arith);
        assert(dy * dy <= 160000 * uu) by (nonlinear_arith)
            requires
                -400 * unit <= dy <= 400 * unit,
                uu == unit * unit,
        ;
        assert(dz * dz == 4410000 * (sin * sin) - 420000 * (sin * unit) + 10000 * uu)
            by (nonlinear_arith)
            requires
                dz == 2100 * sin - 100 * unit,
                uu == unit * unit,
        ;
        assert(sin * unit >= -uu) by (nonlinear_arith)
            requires
                -unit <= sin,
                unit > 0,
                uu == unit * unit,
        ;
        assert((2800 * unit) * (2800 * unit) == 7840000 * uu) by (nonlinear_arith)
            requires
                uu == unit * unit,
        ;
        assert(uu > 0) by (nonlinear_arith)
            requires
                unit > 0,
                uu == unit * unit,
        ;
        assert(p.0 - b.0 == 2100 * cos);
        assert((BOUND_RADIUS - radius_of(i)) * unit == 2800 * unit);
        assert(p.1 - b.1 == dy);
        assert(p.2 - b.2 == dz);
    }
}

/// A sphere whose centre is nearer to the bound's than the radii differ lies
/// inside it with every point: what misses the bound misses the sphere.
pub proof fn law_inside_bound(
    point: (int, int, int),
    centre: (int, int, int),
    bound: (int, int, int),
    radius: int,
    bound_radius: int,
)
    requires
        0 <= radius <= bound_radius,
        dist2(point, centre) <= radius * radius,
        dist2(centre, bound) <= (bound_radius - radius) * (bound_radius - radius),
    ensures
        dist2(point, bound) <= bound_radius * bound_radius,
{
    let (ux, uy, uz): (int, int, int) = (
        point.0 - centre.0,
        point.1 - centre.1,
        point.2 - centre.2,
    );
    let (vx, vy, vz): (int, int, int) = (
        centre.0 - bound.0,
        centre.1 - bound.1,
        centre.2 - bound.2,
    );
    let gap: int = bound_radius - radius;
    let dot: int = ux * vx + uy * vy + uz * vz;
    let uu: int = ux * ux + uy * uy + uz * uz;
    let vv: int = vx * vx + vy * vy + vz * vz;
    lemma_dot_product(ux, uy, uz, vx, vy, vz);
    let (rr, gg): (int, int) = (radius * radius, gap * gap);
    assert(uu * vv <= rr * gg) by (nonlinear_arith)
        requires
            0 <= uu <= rr,
            0 <= vv <= gg,
    ;
    assert((radius * radius) * (gap * gap) == (radius * gap) * (radius * gap)) by (nonlinear_arith);
    assert(radius * gap >= 0) by (nonlinear_arith)
        requires
            radius >= 0,
            gap >= 0,
    ;
    let rg: int = radius * gap;
    assert(dot <= rg) by (nonlinear_arith)
        requires
            dot * dot <= rg * rg,
            rg >= 0,
    ;
    lemma_square_of_sum(ux, vx);
    lemma_square_of_sum(uy, vy);
    lemma_square_of_sum(uz, vz);
    lemma_square_of_sum(radius, gap);
}

/// The square of a sum.
proof fn lemma_square_of_sum(u: int, v: int)
    ensures
        (u + v) * (u + v) == u * u + 2 * (u * v) + v * v,
{
    assert((u + v) * (u + v) == u * u + 2 * (u * v) + v * v) by (nonlinear_arith);
}

/// The square of a dot product is at most the product of the squared lengths.
proof fn lemma_dot_product(ux: int, uy: int, uz: int, vx: int, vy: int, vz: int)
    ensures
        ({
            let dot = ux * vx + uy * vy + uz * vz;
            let uu = ux * ux + uy * uy + uz * uz;
            let vv = vx * vx + vy * vy + vz * vz;
            dot * dot <= uu * vv && 0 <= uu && 0 <= vv
        }),
{
    let (xx, yy, zz): (int, int, int) = (ux * vx, uy * vy, uz * vz);
    let (xy, yx): (int, int) = (ux * vy, uy * vx);
    let (xz, zx): (int, int) = (ux * vz, uz * vx);
    let (yz, zy): (int, int) = (uy * vz, uz * vy);
    let (a, b, c): (int, int, int) = (xy - yx, xz - zx, yz - zy);
    let uu: int = ux * ux + uy * uy + uz * uz;
    let vv: int = vx * vx + vy * vy + vz * vz;
    let squares: int = xx * xx + yy * yy + zz * zz + xy * xy + yx * yx + xz * xz + zx * zx + yz * yz
        + zy * zy;
    assert((ux * ux + uy * uy + uz * uz) * vv == (ux * ux) * vv + (uy * uy) * vv + (uz * uz) * vv)
        by (nonlinear_arith);
    lemma_square_times(ux, vx, vy, vz);
    lemma_square_times(uy, vx, vy, vz);
    lemma_square_times(uz, vx, vy, vz);
    assert(uu * vv == squares);
    assert((ux * vx) * (uy * vy) == (ux * vy) * (uy * vx)) by (nonlinear_arith);
    assert((ux * vx) * (uz * vz) == (ux * vz) * (uz * vx)) by (nonlinear_arith);
    assert((uy * vy) * (uz * vz) == (uy * vz) * (uz * vy)) by (nonlinear_arith);
    lemma_square_of_sum(xx + yy, zz);
    lemma_square_of_sum(xx, yy);
    assert((xx + yy) * zz == xx * zz + yy * zz) by (nonlinear_arith);
    lemma_square_of_sum(xy, -yx);
    lemma_square_of_sum(xz, -zx);
    lemma_square_of_sum(yz, -zy);
    assert(xy * (-yx) == -(xy * yx) && (-yx) * (-yx) == yx * yx) by (nonlinear_arith);
    assert(xz * (-zx) == -(xz * zx) && (-zx) * (-zx) == zx * zx) by (nonlinear_arith);
    assert(yz * (-zy) == -(yz * zy) && (-zy) * (-zy) == zy * zy) by (nonlinear_arith);
    assert(a * a >= 0) by (nonlinear_arith);
    assert(b * b >= 0) by (nonlinear_arith);
    assert(c * c >= 0) by (nonlinear_arith);
    assert(ux * ux >= 0 && uy * uy >= 0 && uz * uz >= 0) by (nonlinear_arith);
    assert(vx * vx >= 0 && vy * vy >= 0 && vz * vz >= 0) by (nonlinear_arith);
}

/// A square times a sum of squares is a sum of squares.
proof fn lemma_square_times(u: int, x: int, y: int, z: int)
    ensures
        (u * u) * (x * x + y * y + z * z) == (u * x) * (u * x) + (u * y) * (u * y) + (u * z) * (u
            * z),
{
    assert((u * u) * (x * x + y * y + z * z) == (u * u) * (x * x) + (u * u) * (y * y) + (u * u) * (z
        * z)) by (nonlinear_arith);
    assert((u * u) * (x * x) == (u * x) * (u * x)) by (nonlinear_arith);
    assert((u * u) * (y * y) == (u * y) * (u * y)) by (nonlinear_arith);
    assert((u * u) * (z * z) == (u * z) * (u * z)) by (nonlinear_arith);
}

/// The three orbiting spheres are alike but for where they are on the orbit, how fast
/// they bob and their colour: a third of a turn of 6282 thousandths apart, once round in
/// the same time, and no two of the same bobbing.
pub proof fn law_orbiting_spheres_are_alike(i: int, j: int)
    requires
        1 <= i < j < 4,
    ensures
        radius_of(i) == 500 && radius_of(j) == 500,
        shine_of(i) == 250 && shine_of(j) == 250,
        path_of(i) matches Path::Orbit { phase: p, radius: r, speed: s, bob: b } && (path_of(j)
            matches Path::Orbit { phase: q, radius: u, speed: v, bob: c } && {
            &&& p == 2094 * (i - 1) && q == 2094 * (j - 1)
            &&& r == 2100 && u == 2100
            &&& s == 900 && v == 900
            &&& b != c
            &&& b == (if i == 1 {
                1700int
            } else {
                1300
            })
            &&& j == 3 ==> c == 2100
        }),
{
}

/// The sphere in the middle, number by number.
pub proof fn law_middle_sphere(i: int)
    requires
        i == 0,
    ensures
        path_of(i) matches Path::Fixed { x, y, z } && x == 0 && y == 150 && z == 600,
        radius_of(i) == 1050 && shine_of(i) == 850,
{
}

/// Every sphere has a colour of three shares of the light between nothing and all of
/// it, and its own: nearly white in the middle, and red, blue and yellow on the orbit.
pub proof fn law_colours_of_spheres(i: int)
    requires
        0 <= i < 4,
    ensures
        albedo_of(i).len() == 3,
        forall|k: int| 0 <= k < 3 ==> 0 <= #[trigger] albedo_of(i)[k] <= 1000,
        i == 0 ==> albedo_of(i) == seq![920i32, 940, 970],
        i == 1 ==> albedo_of(i) == seq![900i32, 240, 180],
        i == 2 ==> albedo_of(i) == seq![200i32, 620, 900],
        i == 3 ==> albedo_of(i) == seq![960i32, 780, 160],
{
}

} // verus!
