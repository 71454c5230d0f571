//! The light on a surface.
//!
//! Places, colours and shares of light are in thousandths. The cosine between
//! the surface and the light is computed by the caller, who adds up the light;
//! what is decided here is what goes into the sum.

use crate::binary32::Binary32;
use crate::scene::{albedo_of, scene, SphereData};
use crate::screen::SPHERES;
use crate::trace::{is_lit, law_light_by_cosine, lit, needs_shadow_ray, wants_shadow_ray, Hit};
use vstd::prelude::*;

verus! {

/// Where the light sits: high and to one side, so that the shadows fall across
/// the checkerboard where they can be seen.
pub const LIGHT_X: i32 = 4000;

pub const LIGHT_Y: i32 = 6000;

pub const LIGHT_Z: i32 = -3000;

/// Light that is everywhere, so that shadows are dark but not black.
pub const AMBIENT: i32 = 160;

/// Light on a surface that faces the light straight on.
pub const DIRECT: i32 = 900;

/// What the highlight adds to that: the same cosine to the eighth power.
pub const HIGHLIGHT: i32 = 350;

/// The colour of a surface before it is lit. Of the floor, `light` says which
/// of its two kinds of square it is.
pub open spec fn surface(hit: Hit, light: bool) -> Seq<i32> {
    match hit {
        Hit::Sphere(i) => albedo_of(i as int),
        Hit::Floor => if light {
            seq![830i32, 830, 860]
        } else {
            seq![130i32, 140, 170]
        },
    }
}

/// How a surface is shaded: its own colour, and whether the light reaches it.
#[derive(Clone, Copy, Debug)]
pub struct Shade {
    pub albedo: [i32; 3],
    pub lit: bool,
}

/// Whether the light reaches a surface. `diffuse` is the cosine between the two,
/// `occlude` says whether shadows are wanted, and `shadowed` whether something
/// stands in the way.
pub open spec fn reached(diffuse: Binary32, occlude: bool, shadowed: bool) -> bool {
    lit(diffuse, wants_shadow_ray(diffuse, occlude) && shadowed)
}

/// Shades one hit point, without following any further rays.
pub fn shade(hit: Hit, light: bool, diffuse: Binary32, occlude: bool, shadowed: bool) -> (r: Shade)
    requires
        hit matches Hit::Sphere(i) ==> i < SPHERES,
    ensures
        r.albedo@ == surface(hit, light),
        r.lit == reached(diffuse, occlude, shadowed),
{
    let albedo: [i32; 3] = match hit {
        Hit::Sphere(i) => {
            let spheres: [SphereData; 4] = scene();
            spheres[i].albedo
        },
        Hit::Floor => if light {
            [830, 830, 860]
        } else {
            [130, 140, 170]
        },
    };
    assert(albedo@ =~= surface(hit, light));
    Shade { albedo, lit: is_lit(diffuse, needs_shadow_ray(diffuse, occlude) && shadowed) }
}

/// The fourth power of a number.
pub open spec fn fourth(x: int) -> int {
    (x * x) * (x * x)
}

/// The light on a surface whose cosine to the light is `cosine` out of `unit`, in
/// thousandths of the eighth power of `unit`.
pub open spec fn brightness(lit: bool, cosine: int, unit: int) -> int {
    let ambient = AMBIENT * (fourth(unit) * fourth(unit));
    if lit {
        ambient + DIRECT * (cosine * (unit * unit * unit * fourth(unit))) + HIGHLIGHT * (fourth(
            cosine,
        ) * fourth(cosine))
    } else {
        ambient
    }
}

/// What a shadow does: a surface that faces the light with something in the way
/// gets the ambient light alone, and any other gets what it would get without
/// shadows.
pub proof fn law_shadow_leaves_ambient(
    diffuse: Binary32,
    shadowed: bool,
    cosine: int,
    unit: int,
)
    ensures
        brightness(reached(diffuse, true, shadowed), cosine, unit) == if (Binary32 {
            bits: 0,
        }).below(diffuse) && shadowed {
            AMBIENT * (fourth(unit) * fourth(unit))
        } else {
            brightness(reached(diffuse, false, shadowed), cosine, unit)
        },
{
}

/// Shadows never make anything brighter, and nothing is darker than the ambient
/// light leaves it. A surface that faces the light has a cosine above zero.
pub proof fn law_shadow_only_darkens(
    diffuse: Binary32,
    shadowed: bool,
    cosine: int,
    unit: int,
)
    requires
        unit > 0,
        (Binary32 { bits: 0 }).below(diffuse) ==> cosine > 0,
    ensures
        ({
            let dark = brightness(reached(diffuse, true, shadowed), cosine, unit);
            let bright = brightness(reached(diffuse, false, shadowed), cosine, unit);
            AMBIENT * (fourth(unit) * fourth(unit)) <= dark <= bright
        }),
{
    if (Binary32 { bits: 0 }).below(diffuse) {
        let (f, c, u): (int, int, int) = (fourth(unit), fourth(cosine), unit * unit * unit);
        lemma_fourth(unit);
        lemma_fourth(cosine);
        assert(u > 0) by (nonlinear_arith)
            requires
                unit > 0,
                u == unit * unit * unit,
        ;
        assert(u * f >= 0) by (nonlinear_arith)
            requires
                u > 0,
                f >= 0,
        ;
        assert(cosine * (u * f) >= 0) by (nonlinear_arith)
            requires
                cosine > 0,
                u * f >= 0,
        ;
        assert(c * c >= 0) by (nonlinear_arith);
    }
}

/// A fourth power is not negative.
proof fn lemma_fourth(x: int)
    ensures
        fourth(x) >= 0,
{
    let y: int = x * x;
    assert(y * y >= 0) by (nonlinear_arith);
}

/// No surface has a negative colour, so more light never makes any component of
/// what is seen darker.
pub proof fn law_brighter_light_brighter_surface(
    hit: Hit,
    light: bool,
    k: int,
    dark: int,
    bright: int,
)
    requires
        0 <= k < 3,
        dark <= bright,
    ensures
        surface(hit, light)[k] >= 0,
        surface(hit, light)[k] * dark <= surface(hit, light)[k] * bright,
{
    let a: int = surface(hit, light)[k] as int;
    assert(a >= 0);
    assert(a * dark <= a * bright) by (nonlinear_arith)
        requires
            a >= 0,
            dark <= bright,
    ;
}

/// Light reaches a surface that faces it unless shadows are wanted and something
/// stands in the way.
pub proof fn law_reached_by_cases(diffuse: Binary32, occlude: bool, shadowed: bool)
    ensures
        reached(diffuse, occlude, shadowed) <==> !diffuse.nan() && diffuse.value() > 0 && !(occlude
            && shadowed),
{
    law_light_by_cosine(diffuse, occlude, true);
    law_light_by_cosine(diffuse, occlude, false);
}

/// A sphere has its own colour whatever the floor's square, and the floor one of its
/// two whatever the spheres.
pub proof fn law_surface_by_hit(i: usize, light: bool)
    ensures
        surface(Hit::Sphere(i), light) == albedo_of(i as int),
        surface(Hit::Floor, true) == seq![830i32, 830, 860],
        surface(Hit::Floor, false) == seq![130i32, 140, 170],
{
}

/// The shares of the light: a surface in the dark gets 160 thousandths, one edge-on no
/// more than that, and one that faces the light straight on 900 and 350 more.
pub proof fn law_brightness_by_shares(cosine: int, unit: int)
    ensures
        brightness(false, cosine, unit) == 160 * (fourth(unit) * fourth(unit)),
        brightness(true, 0, unit) == 160 * (fourth(unit) * fourth(unit)),
        brightness(true, unit, unit) == 1410 * (fourth(unit) * fourth(unit)),
{
    let (f, u3): (int, int) = (fourth(unit), unit * unit * unit);
    assert(unit * (u3 * f) == f * f) by (nonlinear_arith)
        requires
            u3 == unit * unit * unit,
            f == (unit * unit) * (unit * unit),
    ;
    assert(0 * (u3 * f) == 0);
    assert(fourth(0) == 0);
}

} // verus!
