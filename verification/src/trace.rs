//! What a ray runs into, and what follows from it.
//!
//! Distances and cosines are computed by the caller; what is decided here is
//! which of them counts.

use crate::binary32::{
    law_halves_mirror, law_order_is_that_of_patterns, lemma_magnitude_increases, one, Binary32,
};
use crate::scene::{scene, shine_of, SphereData};
use crate::screen::SPHERES;
use vstd::arithmetic::power2::{lemma2_to64, lemma_pow2_adds, lemma_pow2_pos, pow2};
use vstd::prelude::*;

verus! {

/// Bit pattern of 1.0e-3. Nothing nearer than this is hit, so that a ray does
/// not immediately run into the surface it started from.
pub const EPS: u32 = 0x3a83_126f;

/// Bit pattern of 1.0e9: how far a ray may travel before it is considered to
/// have hit nothing.
pub const FAR: u32 = 0x4e6e_6b28;

/// Bit pattern of -1.0e-4. Only a ray that falls faster than this looks for
/// the floor.
pub const FALLING: u32 = 0xb8d1_b717;

/// Bit pattern of 8.0: up to here the floor reflects in full.
pub const REFLECT_NEAR: u32 = 0x4100_0000;

/// Bit pattern of 14.0: from here on the floor does not reflect.
pub const REFLECT_FAR: u32 = 0x4160_0000;

/// Bit pattern of 0.01: a surface no shinier than this does not reflect.
pub const MATTE: u32 = 0x3c23_d70a;

/// Bit pattern of 0.5: a surface less shiny than this gets a sheen only.
pub const SHINY: u32 = 0x3f00_0000;

/// What a ray ran into.
#[derive(Clone, Copy, Debug, PartialEq, Eq, Structural)]
pub enum Hit {
    /// Index into the sphere array.
    Sphere(usize),
    Floor,
}

/// Whether a distance is far enough from the surface the ray started on.
pub open spec fn clear_of_start(t: Binary32) -> bool {
    (Binary32 { bits: EPS }).below(t)
}

/// Whether a distance is within a ray's reach.
pub open spec fn within_reach(t: Binary32) -> bool {
    t.below(Binary32 { bits: FAR })
}

/// Whether a ray can be ruled out by the sphere around the whole scene: it
/// points away with its origin outside, or misses the bound entirely.
pub open spec fn ruled_out(b: Binary32, c: Binary32, disc: Binary32) -> bool {
    let zero = Binary32 { bits: 0 };
    (zero.below(b) && zero.below(c)) || disc.below(zero)
}

/// Whether a ray can be ruled out by the sphere around the whole scene. `b` is
/// the ray's approach, `c` the excess of the squared distance of its origin,
/// and `disc` the discriminant `b * b - c`.
pub fn misses_bound(b: Binary32, c: Binary32, disc: Binary32) -> (r: bool)
    ensures
        r == ruled_out(b, c, disc),
{
    let zero: Binary32 = Binary32 { bits: 0 };
    (zero.lt(b) && zero.lt(c)) || disc.lt(zero)
}

/// Distance at which a ray enters a sphere, if it does: the nearer crossing
/// that is clear of the ray's start.
pub open spec fn entry(disc: Binary32, near: Binary32, far: Binary32) -> Option<Binary32> {
    if disc.below(Binary32 { bits: 0 }) {
        None
    } else if clear_of_start(near) {
        Some(near)
    } else if clear_of_start(far) {
        Some(far)
    } else {
        None
    }
}

/// Distance at which a ray enters a sphere, if it does. `disc` is the
/// discriminant of the intersection, and `near` and `far` are its two
/// crossings, which only count when the discriminant is not negative.
pub fn hit_sphere(disc: Binary32, near: Binary32, far: Binary32) -> (r: Option<Binary32>)
    ensures
        r == entry(disc, near, far),
{
    let eps: Binary32 = Binary32 { bits: EPS };
    if disc.lt(Binary32 { bits: 0 }) {
        return None;
    }
    if eps.lt(near) {
        return Some(near);
    }
    if eps.lt(far) {
        Some(far)
    } else {
        None
    }
}

/// Whether a ray that heads down at `rd_y` looks for the floor.
pub open spec fn falls(check_floor: bool, rd_y: Binary32) -> bool {
    check_floor && rd_y.below(Binary32 { bits: FALLING })
}

/// Whether a ray that heads down at `rd_y` is to be tested against the floor.
pub fn seeks_floor(check_floor: bool, rd_y: Binary32) -> (r: bool)
    ensures
        r == falls(check_floor, rd_y),
{
    check_floor && rd_y.lt(Binary32 { bits: FALLING })
}

/// Whether sphere `i` is hit at `t`, within reach.
pub open spec fn sphere_at(hits: Seq<Option<Binary32>>, i: int, t: Binary32) -> bool {
    0 <= i < hits.len() && hits[i] == Some(t) && within_reach(t)
}

/// Whether the floor is hit at `t`, within reach.
pub open spec fn floor_at(floor: Option<Binary32>, t: Binary32) -> bool {
    floor == Some(t) && clear_of_start(t) && within_reach(t)
}

/// Whether a hit is the nearest of all: spheres come in order, the earlier one
/// winning a tie, and the floor has to be strictly nearer than any of them.
pub open spec fn nearest(
    hits: Seq<Option<Binary32>>,
    floor: Option<Binary32>,
    t: Binary32,
    what: Hit,
) -> bool {
    match what {
        Hit::Sphere(i) => {
            &&& sphere_at(hits, i as int, t)
            &&& forall|j: int, u: Binary32|
                #![trigger sphere_at(hits, j, u)]
                sphere_at(hits, j, u) ==> if j < i {
                    t.below(u)
                } else {
                    t.at_most(u)
                }
            &&& forall|u: Binary32| #[trigger] floor_at(floor, u) ==> t.at_most(u)
        },
        Hit::Floor => {
            &&& floor_at(floor, t)
            &&& forall|j: int, u: Binary32| #[trigger] sphere_at(hits, j, u) ==> t.below(u)
        },
    }
}

/// The sphere hits of a ray that count: none at all for one that misses the
/// bound of the scene.
pub open spec fn counted(missed: bool, hits: Seq<Option<Binary32>>) -> Seq<Option<Binary32>> {
    if missed {
        Seq::new(hits.len(), |i: int| None)
    } else {
        hits
    }
}

/// Whether a ray found this: the nearest hit of all that count, or nothing where
/// there is none.
pub open spec fn traced(
    missed: bool,
    hits: Seq<Option<Binary32>>,
    floor: Option<Binary32>,
    r: Option<(Binary32, Hit)>,
) -> bool {
    match r {
        Some((t, what)) => nearest(counted(missed, hits), floor, t, what),
        None => {
            &&& forall|i: int, t: Binary32| !sphere_at(counted(missed, hits), i, t)
            &&& forall|t: Binary32| !floor_at(floor, t)
        },
    }
}

/// Nearest intersection with the whole scene. `missed` says that the ray was
/// held against the bound of the scene and misses it; `hits` holds the distance
/// at which the ray enters each sphere, and `floor` where it crosses the floor.
pub fn trace_with(missed: bool, hits: &[Option<Binary32>; 4], floor: Option<Binary32>) -> (r:
    Option<(Binary32, Hit)>)
    ensures
        traced(missed, hits@, floor, r),
{
    let ghost seen = counted(missed, hits@);
    let mut best: Binary32 = Binary32 { bits: FAR };
    let mut what: Option<Hit> = None;
    let mut i: usize = 0;
    while i < 4
        invariant
            i <= 4,
            seen == counted(missed, hits@),
            !best.nan(),
            match what {
                Some(Hit::Sphere(k)) => {
                    &&& k < i
                    &&& sphere_at(seen, k as int, best)
                    &&& forall|j: int, u: Binary32|
                        #![trigger sphere_at(seen, j, u)]
                        j < i && sphere_at(seen, j, u) ==> if j < k {
                            best.below(u)
                        } else {
                            best.at_most(u)
                        }
                },
                Some(Hit::Floor) => false,
                None => {
                    &&& best.bits == FAR
                    &&& forall|j: int, u: Binary32| j < i ==> !(#[trigger] sphere_at(seen, j, u))
                },
            },
        decreases 4 - i,
    {
        if !missed {
            if let Some(t) = hits[i] {
                if t.lt(best) {
                    best = t;
                    what = Some(Hit::Sphere(i));
                }
            }
        }
        i += 1;
    }
    if let Some(t) = floor {
        if (Binary32 { bits: EPS }).lt(t) && t.lt(best) {
            best = t;
            what = Some(Hit::Floor);
        }
    }
    match what {
        Some(w) => Some((best, w)),
        None => None,
    }
}

/// Whether sphere `i` stands between a point and the light: it is not the
/// point's own, and the ray enters it before the light.
pub open spec fn blocks(
    hits: Seq<Option<Binary32>>,
    i: int,
    self_index: Option<usize>,
    dist: Binary32,
) -> bool {
    0 <= i < hits.len() && Some(i as usize) != self_index && (hits[i] matches Some(t) && t.below(
        dist,
    ))
}

/// Whether any sphere stands between a point and the light.
pub open spec fn shadowed(
    hits: Seq<Option<Binary32>>,
    self_index: Option<usize>,
    dist: Binary32,
) -> bool {
    exists|i: int| #[trigger] blocks(hits, i, self_index, dist)
}

/// True when something stands between a point and the light. `missed` says
/// that the ray to the light misses the bound of the scene; `hits` holds where
/// it enters each sphere, and `dist` how far away the light is.
pub fn in_shadow(
    missed: bool,
    hits: &[Option<Binary32>; 4],
    self_index: Option<usize>,
    dist: Binary32,
) -> (r: bool)
    ensures
        r == shadowed(counted(missed, hits@), self_index, dist),
{
    if missed {
        return false;
    }
    let mut i: usize = 0;
    while i < 4
        invariant
            i <= 4,
            !missed,
            forall|j: int| j < i ==> !(#[trigger] blocks(hits@, j, self_index, dist)),
        decreases 4 - i,
    {
        let own: bool = match self_index {
            Some(k) => k == i,
            None => false,
        };
        if !own {
            if let Some(t) = hits[i] {
                if t.lt(dist) {
                    assert(blocks(hits@, i as int, self_index, dist));
                    return true;
                }
            }
        }
        i += 1;
    }
    false
}

/// The sphere that a hit is on, if it is on one.
pub open spec fn own_sphere(hit: Hit) -> Option<usize> {
    match hit {
        Hit::Sphere(i) => Some(i),
        Hit::Floor => None,
    }
}

/// The sphere that a hit is on, which cannot shadow itself.
pub fn self_index(hit: Hit) -> (r: Option<usize>)
    ensures
        r == own_sphere(hit),
{
    match hit {
        Hit::Sphere(i) => Some(i),
        Hit::Floor => None,
    }
}

/// Whether a point is worth a shadow ray: it faces the light, and shadows are
/// wanted at all.
pub open spec fn wants_shadow_ray(diffuse: Binary32, occlude: bool) -> bool {
    (Binary32 { bits: 0 }).below(diffuse) && occlude
}

/// Whether the light reaches a point: it faces the light and nothing is in
/// the way.
pub open spec fn lit(diffuse: Binary32, occluded: bool) -> bool {
    (Binary32 { bits: 0 }).below(diffuse) && !occluded
}

/// Whether a surface at this cosine to the light is worth a shadow ray. One
/// tilted away from the light is dark no matter what stands in the way.
pub fn needs_shadow_ray(diffuse: Binary32, occlude: bool) -> (r: bool)
    ensures
        r == wants_shadow_ray(diffuse, occlude),
{
    (Binary32 { bits: 0 }).lt(diffuse) && occlude
}

/// Whether a surface at this cosine to the light gets more than ambient light.
pub fn is_lit(diffuse: Binary32, occluded: bool) -> (r: bool)
    ensures
        r == lit(diffuse, occluded),
{
    (Binary32 { bits: 0 }).lt(diffuse) && !occluded
}

/// How much of a reflection is left at some distance.
#[derive(Clone, Copy, Debug, PartialEq, Eq, Structural)]
pub enum Fade {
    /// Too far away to reflect.
    Off,
    /// Near enough to reflect in full.
    Full,
    /// In between, where the reflection fades: what is left of the way to where
    /// it ends, in 2^-20ths of a unit, which is exact.
    Fading(u32),
    /// The distance is no number.
    Unknown,
}

/// How mirrored a surface is: in thousandths where it reflects in full, and how
/// much is left of that.
#[derive(Clone, Copy, Debug, PartialEq, Eq, Structural)]
pub struct Mirror {
    pub full: i32,
    pub fade: Fade,
}

/// How mirrored the floor is where it reflects in full, in thousandths. It
/// looks wet, and the spheres appear upside down in it.
pub const FLOOR_SHINE: i32 = 220;

/// The way over which the floor's reflection fades, in 2^-20ths of a unit: from
/// 8 to 14.
pub const FADE: u32 = 0x60_0000;

/// Whether this much of the floor's reflection is left at a hit `dist` away.
pub open spec fn fades(dist: Binary32, m: Fade) -> bool {
    let near = Binary32 { bits: REFLECT_NEAR };
    let far = Binary32 { bits: REFLECT_FAR };
    match m {
        Fade::Off => far.at_most(dist),
        Fade::Full => dist.at_most(near),
        Fade::Fading(left) => {
            &&& near.below(dist) && dist.below(far)
            &&& left * pow2(129) == far.value() - dist.value()
        },
        Fade::Unknown => dist.nan(),
    }
}

/// Whether a surface is this mirrored, at a hit `dist` away: a sphere is
/// always as mirrored as it is, the floor fades with the distance.
pub open spec fn mirrors(hit: Hit, dist: Binary32, m: Mirror) -> bool {
    match hit {
        Hit::Sphere(i) => m.full == shine_of(i as int) && m.fade == Fade::Full,
        Hit::Floor => m.full == FLOOR_SHINE && fades(dist, m.fade),
    }
}

/// How mirrored the surface is, at a hit `dist` away.
pub fn mirror_of(hit: Hit, dist: Binary32) -> (r: Mirror)
    requires
        hit matches Hit::Sphere(i) ==> i < SPHERES,
    ensures
        mirrors(hit, dist, r),
{
    match hit {
        Hit::Sphere(i) => {
            let spheres: [SphereData; 4] = scene();
            Mirror { full: spheres[i].mirror, fade: Fade::Full }
        },
        Hit::Floor => Mirror { full: FLOOR_SHINE, fade: fade_of_floor(dist) },
    }
}

/// How much of the floor's reflection is left at a hit `dist` away. Fading
/// rather than cutting avoids a visible ring across the checkerboard.
fn fade_of_floor(dist: Binary32) -> (r: Fade)
    ensures
        fades(dist, r),
{
    let near: Binary32 = Binary32 { bits: REFLECT_NEAR };
    let far: Binary32 = Binary32 { bits: REFLECT_FAR };
    if far.le(dist) {
        Fade::Off
    } else if dist.le(near) {
        Fade::Full
    } else if near.lt(dist) {
        proof {
            lemma_fade(dist);
        }
        Fade::Fading(REFLECT_FAR - dist.bits)
    } else {
        Fade::Unknown
    }
}

/// Between 8 and 14 all numbers have the same exponent, so their differences
/// are those of their patterns.
proof fn lemma_fade(dist: Binary32)
    requires
        (Binary32 { bits: REFLECT_NEAR }).below(dist),
        dist.below(Binary32 { bits: REFLECT_FAR }),
    ensures
        REFLECT_NEAR < dist.bits < REFLECT_FAR,
        (REFLECT_FAR - dist.bits) * pow2(129) == (Binary32 { bits: REFLECT_FAR }).value()
            - dist.value(),
{
    let near = Binary32 { bits: REFLECT_NEAR };
    let far = Binary32 { bits: REFLECT_FAR };
    let p: int = pow2(129) as int;
    lemma_pow2_pos(129);
    assert(near.value() == 0x80_0000 * p);
    assert(far.value() == 0xe0_0000 * p);
    assert(!dist.signed());
    if dist.field() < near.field() {
        lemma_magnitude_increases(dist.field(), near.field());
    }
    if far.field() < dist.field() {
        lemma_magnitude_increases(far.field(), dist.field());
    }
    let f: int = (dist.field() % 0x80_0000) as int;
    assert(dist.field() == 130 * 0x80_0000 + f);
    assert(dist.value() == (0x80_0000 + f) * p);
    assert(0xe0_0000 * p - (0x80_0000 + f) * p == (0x60_0000 - f) * p) by (nonlinear_arith);
}

/// What is left of a reflection, out of `FADE`.
pub open spec fn share(m: Fade) -> int {
    match m {
        Fade::Off => 0,
        Fade::Full => FADE as int,
        Fade::Fading(left) => left as int,
        Fade::Unknown => 0,
    }
}

/// How mirrored a surface is, in thousandths of `FADE`-ths.
pub open spec fn worth(m: Mirror) -> int {
    m.full * share(m.fade)
}

/// The farther away the floor is, the less it is mirrored: in full up to 8, not
/// at all from 14 on, and never more than that or less than nothing.
pub proof fn law_floor_mirror_fades(d1: Binary32, m1: Mirror, d2: Binary32, m2: Mirror)
    requires
        mirrors(Hit::Floor, d1, m1),
        mirrors(Hit::Floor, d2, m2),
        d1.at_most(d2),
    ensures
        FLOOR_SHINE * FADE >= worth(m1) >= worth(m2) >= 0,
        d1.at_most(Binary32 { bits: REFLECT_NEAR }) ==> worth(m1) == FLOOR_SHINE * FADE,
        (Binary32 { bits: REFLECT_FAR }).at_most(d1) ==> worth(m1) == 0,
{
    lemma_fade_ends();
    lemma_share(d1, m1.fade);
    lemma_share(d2, m2.fade);
    if m1.fade is Fading && m2.fade is Fading {
        let (a, b, p): (int, int, int) = (
            m1.fade->Fading_0 as int,
            m2.fade->Fading_0 as int,
            pow2(129) as int,
        );
        assert(a >= b) by (nonlinear_arith)
            requires
                a * p >= b * p,
                p > 0,
        ;
    }
    assert(worth(m1) == 220 * share(m1.fade));
    assert(worth(m2) == 220 * share(m2.fade));
}

/// The fading is linear and has no jump: from 8 to 14, both included, the floor
/// is mirrored in proportion to what is left of the way.
pub proof fn law_floor_mirror_is_linear(dist: Binary32, m: Mirror)
    requires
        mirrors(Hit::Floor, dist, m),
        (Binary32 { bits: REFLECT_NEAR }).at_most(dist),
        dist.at_most(Binary32 { bits: REFLECT_FAR }),
    ensures
        worth(m) * pow2(129) == FLOOR_SHINE * ((Binary32 { bits: REFLECT_FAR }).value()
            - dist.value()),
{
    lemma_fade_ends();
    let (a, p): (int, int) = (share(m.fade), pow2(129) as int);
    assert(worth(m) == 220 * a);
    assert((220 * a) * p == 220 * (a * p)) by (nonlinear_arith);
}

/// A sphere is as mirrored as it is at any distance.
pub proof fn law_sphere_mirror_is_constant(i: usize, dist: Binary32, m: Mirror)
    requires
        mirrors(Hit::Sphere(i), dist, m),
    ensures
        worth(m) == shine_of(i as int) * FADE,
{
}

/// The numbers where the fading begins and ends.
proof fn lemma_fade_ends()
    ensures
        pow2(129) > 0,
        (Binary32 { bits: REFLECT_NEAR }).value() == 0x80_0000 * pow2(129),
        (Binary32 { bits: REFLECT_FAR }).value() == 0xe0_0000 * pow2(129),
        FADE * pow2(129) == 0xe0_0000 * pow2(129) - 0x80_0000 * pow2(129),
{
    lemma_pow2_pos(129);
}

/// A share is never more than the whole way.
proof fn lemma_share(dist: Binary32, m: Fade)
    requires
        fades(dist, m),
    ensures
        0 <= share(m) <= FADE,
{
    lemma_fade_ends();
    if m is Fading {
        let (a, p): (int, int) = (m->Fading_0 as int, pow2(129) as int);
        assert(a <= 0x60_0000) by (nonlinear_arith)
            requires
                a * p <= 0x60_0000 * p,
                p > 0,
        ;
    }
}

/// What a mirrored surface costs.
#[derive(Clone, Copy, Debug, PartialEq, Eq, Structural)]
pub enum Bounce {
    /// No reflection at all.
    Nothing,
    /// The sky alone, which reads the same on a faintly mirrored surface.
    Sheen,
    /// One more ray through the scene.
    Ray,
}

/// How the reflection in a surface is found.
pub open spec fn bounced(mirror: Binary32) -> Bounce {
    if mirror.at_most(Binary32 { bits: MATTE }) {
        Bounce::Nothing
    } else if mirror.below(Binary32 { bits: SHINY }) {
        Bounce::Sheen
    } else {
        Bounce::Ray
    }
}

/// How the reflection in a surface is found.
pub fn bounce(mirror: Binary32) -> (r: Bounce)
    ensures
        r == bounced(mirror),
{
    if mirror.le(Binary32 { bits: MATTE }) {
        Bounce::Nothing
    } else if mirror.lt(Binary32 { bits: SHINY }) {
        Bounce::Sheen
    } else {
        Bounce::Ray
    }
}

/// A number kept between 0 and 1.
pub open spec fn kept_between(v: Binary32) -> Binary32 {
    if v.below(Binary32 { bits: 0 }) {
        Binary32 { bits: 0 }
    } else if (Binary32 { bits: 0x3f80_0000 }).below(v) {
        Binary32 { bits: 0x3f80_0000 }
    } else {
        v
    }
}

/// How high up the sky's gradient a direction points: `v` kept between 0 and
/// 1. What is no number stays as it is.
pub fn sky_height(v: Binary32) -> (r: Binary32)
    ensures
        r == kept_between(v),
{
    let zero: Binary32 = Binary32 { bits: 0 };
    let top: Binary32 = Binary32 { bits: 0x3f80_0000 };
    if v.lt(zero) {
        zero
    } else if top.lt(v) {
        top
    } else {
        v
    }
}

/// A sphere is never hit at the start of the ray, so a ray that leaves a
/// surface does not immediately run into it again.
pub proof fn law_entry_clear_of_start(disc: Binary32, near: Binary32, far: Binary32)
    ensures
        entry(disc, near, far) matches Some(t) ==> clear_of_start(t) && (t == near || t == far),
{
}

/// With its crossings in order, a sphere is entered at the first one that is
/// clear of the ray's start, and is missed only if there is none.
pub proof fn law_entry_is_first(disc: Binary32, near: Binary32, far: Binary32)
    requires
        !disc.below(Binary32 { bits: 0 }),
        near.at_most(far),
    ensures
        entry(disc, near, far) is None <==> !clear_of_start(near) && !clear_of_start(far),
        entry(disc, near, far) matches Some(t) ==> {
            &&& clear_of_start(near) ==> t.at_most(near)
            &&& clear_of_start(far) ==> t.at_most(far)
        },
{
}

/// Only one hit can be the nearest.
pub proof fn law_nearest_is_one(
    hits: Seq<Option<Binary32>>,
    floor: Option<Binary32>,
    t1: Binary32,
    w1: Hit,
    t2: Binary32,
    w2: Hit,
)
    requires
        nearest(hits, floor, t1, w1),
        nearest(hits, floor, t2, w2),
    ensures
        t1 == t2,
        w1 == w2,
{
    match w1 {
        Hit::Sphere(i) => {
            assert(sphere_at(hits, i as int, t1));
        },
        Hit::Floor => {
            assert(floor_at(floor, t1));
        },
    }
    match w2 {
        Hit::Sphere(i) => {
            assert(sphere_at(hits, i as int, t2));
        },
        Hit::Floor => {
            assert(floor_at(floor, t2));
        },
    }
}

/// The shadow ray is fired exactly when it can change the answer: where
/// shadows are wanted and light that is held up would otherwise arrive.
pub proof fn law_shadow_ray_decides(diffuse: Binary32, occlude: bool)
    ensures
        wants_shadow_ray(diffuse, occlude) <==> lit(diffuse, occlude) != lit(diffuse, false),
{
}

/// A sphere does not shadow itself: where the ray enters it makes no
/// difference.
pub proof fn law_no_self_shadow(
    hits: Seq<Option<Binary32>>,
    own: usize,
    other: Option<Binary32>,
    dist: Binary32,
)
    requires
        own < hits.len(),
    ensures
        shadowed(hits.update(own as int, other), Some(own), dist) == shadowed(
            hits,
            Some(own),
            dist,
        ),
{
    let changed = hits.update(own as int, other);
    if shadowed(hits, Some(own), dist) {
        let i = choose|i: int| #[trigger] blocks(hits, i, Some(own), dist);
        assert(blocks(changed, i, Some(own), dist));
    }
    if shadowed(changed, Some(own), dist) {
        let i = choose|i: int| #[trigger] blocks(changed, i, Some(own), dist);
        assert(blocks(hits, i, Some(own), dist));
    }
}

/// Nothing that counts is passed over: a ray that does not miss the bound and
/// enters any of the spheres at a distance below 1.0e9 hits something, and no
/// farther away than that. So does one that crosses the floor beyond 0.001, with
/// or without the bound.
pub proof fn law_nothing_is_passed_over(
    missed: bool,
    hits: Seq<Option<Binary32>>,
    floor: Option<Binary32>,
    r: Option<(Binary32, Hit)>,
    t: Binary32,
)
    requires
        traced(missed, hits, floor, r),
        t.below(Binary32 { bits: 0x4e6e_6b28 }),
    ensures
        forall|i: int|
            !missed && 0 <= i < hits.len() && #[trigger] hits[i] == Some(t) ==> (r matches Some(
                (nearest_t, _),
            ) && nearest_t.at_most(t)),
        floor == Some(t) && (Binary32 { bits: 0x3a83_126f }).below(t) ==> (r matches Some(
            (nearest_t, _),
        ) && nearest_t.at_most(t)),
{
    let seen = counted(missed, hits);
    assert forall|i: int|
        !missed && 0 <= i < hits.len() && #[trigger] hits[i] == Some(t) implies (r matches Some(
        (nearest_t, _),
    ) && nearest_t.at_most(t)) by {
        assert(sphere_at(seen, i, t));
    }
    if floor == Some(t) && (Binary32 { bits: 0x3a83_126f }).below(t) {
        assert(floor_at(floor, t));
    }
}

/// What is hit is there: a sphere at the distance at which the ray enters that very
/// one, and only by a ray that does not miss the bound; the floor where the ray
/// crosses it, beyond 0.001. Either lies below 1.0e9.
pub proof fn law_what_is_hit_is_there(
    missed: bool,
    hits: Seq<Option<Binary32>>,
    floor: Option<Binary32>,
    t: Binary32,
    what: Hit,
)
    requires
        traced(missed, hits, floor, Some((t, what))),
    ensures
        t.below(Binary32 { bits: 0x4e6e_6b28 }),
        what matches Hit::Sphere(i) ==> !missed && i < hits.len() && hits[i as int] == Some(t),
        what is Floor ==> floor == Some(t) && (Binary32 { bits: 0x3a83_126f }).below(t),
{
}

/// Among hits at the same distance the earlier sphere comes first, and the floor
/// comes last: no sphere before the one that is hit is as near, and where the floor
/// is hit no sphere is.
pub proof fn law_ties_go_to_the_first(
    missed: bool,
    hits: Seq<Option<Binary32>>,
    floor: Option<Binary32>,
    t: Binary32,
    what: Hit,
    j: int,
    u: Binary32,
)
    requires
        traced(missed, hits, floor, Some((t, what))),
        !missed,
        0 <= j < hits.len(),
        hits[j] == Some(u),
        u.at_most(t),
    ensures
        what matches Hit::Sphere(i) && i <= j,
{
    assert(sphere_at(counted(missed, hits), j, u));
}

/// A ray with one thing to hit hits that: the sphere that it enters, whichever it
/// is, or the floor. With nothing to hit it hits nothing.
pub proof fn law_one_thing_is_hit(
    missed: bool,
    hits: Seq<Option<Binary32>>,
    floor: Option<Binary32>,
    r: Option<(Binary32, Hit)>,
    i: usize,
    t: Binary32,
)
    requires
        traced(missed, hits, floor, r),
        forall|j: int| 0 <= j < hits.len() && j != i ==> (#[trigger] hits[j]) is None,
        i < hits.len(),
        hits.len() <= usize::MAX,
        t.below(Binary32 { bits: 0x4e6e_6b28 }),
    ensures
        !missed && hits[i as int] == Some(t) && floor is None ==> r == Some((t, Hit::Sphere(i))),
        hits[i as int] is None && floor == Some(t) && (Binary32 { bits: 0x3a83_126f }).below(t)
            ==> r == Some((t, Hit::Floor)),
        missed && floor == Some(t) && (Binary32 { bits: 0x3a83_126f }).below(t) ==> r == Some(
            (t, Hit::Floor),
        ),
        (missed || hits[i as int] is None) && floor is None ==> r is None,
{
    law_nothing_is_passed_over(missed, hits, floor, r, t);
    if let Some((u, what)) = r {
        law_what_is_hit_is_there(missed, hits, floor, u, what);
        if let Hit::Sphere(k) = what {
            assert(hits[k as int] is Some);
        }
    }
}

/// Every sphere but the point's own casts a shadow: if the ray to the light does
/// not miss the bound and enters any other sphere nearer than the light, the point
/// is in shadow. It is in shadow for no other reason.
pub proof fn law_every_other_sphere_casts_a_shadow(
    missed: bool,
    hits: Seq<Option<Binary32>>,
    own: Option<usize>,
    dist: Binary32,
)
    requires
        hits.len() <= usize::MAX,
    ensures
        forall|i: usize|
            !missed && i < hits.len() && own != Some(i) && (#[trigger] hits[i as int] matches Some(t)
                && t.below(dist)) ==> shadowed(counted(missed, hits), own, dist),
        shadowed(counted(missed, hits), own, dist) ==> !missed && exists|i: usize|
            i < hits.len() && own != Some(i) && (#[trigger] hits[i as int] matches Some(t) && t.below(
                dist,
            )),
{
    let seen = counted(missed, hits);
    assert forall|i: usize|
        !missed && i < hits.len() && own != Some(i) && (#[trigger] hits[i as int] matches Some(t)
            && t.below(dist)) implies shadowed(seen, own, dist) by {
        assert(blocks(seen, i as int, own, dist));
    }
    if shadowed(seen, own, dist) {
        let k = choose|k: int| #[trigger] blocks(seen, k, own, dist);
        let i: usize = k as usize;
        assert(seen[k] is Some);
        assert(hits[i as int] is Some);
    }
}

/// A hit on a sphere is that sphere's own, a hit on the floor no sphere's.
pub proof fn law_own_sphere(hit: Hit, i: usize)
    ensures
        own_sphere(hit) == Some(i) <==> hit == Hit::Sphere(i),
        own_sphere(hit) is None <==> hit is Floor,
{
}

/// A ray can be ruled out exactly if it recedes from outside the bound, or has a
/// negative discriminant.
pub proof fn law_ruled_out_by_signs(b: Binary32, c: Binary32, disc: Binary32)
    ensures
        ruled_out(b, c, disc) <==> (!b.nan() && b.value() > 0 && !c.nan() && c.value() > 0) || (
        !disc.nan() && disc.value() < 0),
{
    assert((Binary32 { bits: 0 }).value() == 0);
}

/// Where a ray enters a sphere: at the nearer crossing if that lies beyond 0.001,
/// else at the farther one if that does, and nowhere if neither does or the
/// discriminant is negative.
pub proof fn law_entry_by_cases(disc: Binary32, near: Binary32, far: Binary32)
    ensures
        !disc.nan() && disc.value() < 0 ==> entry(disc, near, far) is None,
        disc.nan() || disc.value() >= 0 ==> {
            let eps = Binary32 { bits: 0x3a83_126f };
            &&& eps.below(near) ==> entry(disc, near, far) == Some(near)
            &&& !eps.below(near) && eps.below(far) ==> entry(disc, near, far) == Some(far)
            &&& !eps.below(near) && !eps.below(far) ==> entry(disc, near, far) is None
        },
{
    assert((Binary32 { bits: 0 }).value() == 0);
}

/// A ray looks for the floor if it is asked to and falls, by more than 0.0001.
pub proof fn law_falling_by_slope(check_floor: bool, rd_y: Binary32)
    ensures
        falls(check_floor, rd_y) ==> check_floor && rd_y.value() < 0,
        check_floor ==> (falls(check_floor, rd_y) <==> 0xb8d1_b717 < rd_y.bits <= 0xff80_0000),
        !check_floor ==> !falls(check_floor, rd_y),
{
    law_order_is_that_of_patterns(rd_y, Binary32 { bits: 0xb8d1_b717 });
    law_order_is_that_of_patterns(rd_y, Binary32 { bits: 0x8000_0000 });
    law_halves_mirror(rd_y);
    assert((Binary32 { bits: 0x8000_0000 }).value() == 0);
}

/// A surface gets light beyond the ambient if it faces the light and nothing is in
/// the way, and asks for a shadow ray if it faces the light and shadows are wanted.
pub proof fn law_light_by_cosine(diffuse: Binary32, occlude: bool, occluded: bool)
    ensures
        lit(diffuse, occluded) <==> !diffuse.nan() && diffuse.value() > 0 && !occluded,
        wants_shadow_ray(diffuse, occlude) <==> !diffuse.nan() && diffuse.value() > 0 && occlude,
{
    assert((Binary32 { bits: 0 }).value() == 0);
}

/// How mirrored a surface is, by cases: a sphere as much as it is, the floor by 220
/// thousandths up to 8, not at all from 14 on, and in between with what is left of
/// the way to 14, in 2^-20ths.
pub proof fn law_mirror_by_cases(hit: Hit, dist: Binary32, m: Mirror)
    requires
        mirrors(hit, dist, m),
    ensures
        hit matches Hit::Sphere(i) ==> m.full == (if i == 0 {
            850int
        } else {
            250
        }) && m.fade == Fade::Full,
        hit is Floor ==> {
            let (near, far) = (Binary32 { bits: 0x4100_0000 }, Binary32 { bits: 0x4160_0000 });
            &&& m.full == 220
            &&& dist.at_most(near) ==> m.fade == Fade::Full
            &&& far.at_most(dist) ==> m.fade == Fade::Off
            &&& near.below(dist) && dist.below(far) ==> (m.fade matches Fade::Fading(left) && left
                == 0x4160_0000 - dist.bits)
            &&& dist.nan() <==> m.fade == Fade::Unknown
        },
{
    let (near, far) = (Binary32 { bits: REFLECT_NEAR }, Binary32 { bits: REFLECT_FAR });
    lemma_fade_ends();
    if near.below(dist) && dist.below(far) && hit is Floor {
        lemma_fade(dist);
        let (a, b, p): (int, int, int) = (
            m.fade->Fading_0 as int,
            REFLECT_FAR - dist.bits,
            pow2(129) as int,
        );
        assert(a == b) by (nonlinear_arith)
            requires
                a * p == b * p,
                p > 0,
        ;
    }
}

/// A shinier surface never gets a lesser reflection: nothing up to 0.01, a sheen
/// up to 0.5, and a ray from there on.
pub proof fn law_bounce_by_shine(mirror: Binary32)
    ensures
        mirror.at_most(Binary32 { bits: 0x3c23_d70a }) <==> bounced(mirror) == Bounce::Nothing,
        (Binary32 { bits: 0x3c23_d70a }).below(mirror) && mirror.below(Binary32 { bits: 0x3f00_0000 })
            <==> bounced(mirror) == Bounce::Sheen,
        (Binary32 { bits: 0x3f00_0000 }).at_most(mirror) ==> bounced(mirror) == Bounce::Ray,
{
    law_order_is_that_of_patterns(Binary32 { bits: 0x3c23_d70a }, Binary32 { bits: 0x3f00_0000 });
    law_order_is_that_of_patterns(Binary32 { bits: 0x3f00_0000 }, Binary32 { bits: 0x3c23_d70a });
}

/// A height is kept between 0 and 1: it is the nearest number there, and one that
/// is there already stays.
pub proof fn law_height_is_kept_between(v: Binary32)
    ensures
        v.nan() ==> kept_between(v) == v,
        !v.nan() ==> {
            let h = kept_between(v);
            &&& v.value() < 0 ==> h.bits == 0
            &&& v.value() > one() ==> h.bits == 0x3f80_0000
            &&& 0 <= v.value() <= one() ==> h == v
            &&& 0 <= h.value() <= one()
        },
{
    lemma_pow2_pos(149);
    lemma_pow2_adds(23, 126);
    lemma2_to64();
    assert((Binary32 { bits: 0x3f80_0000 }).value() == one()) by {
        assert(0x3f80_0000nat / 0x80_0000 == 127);
        assert(0x3f80_0000nat % 0x80_0000 == 0);
    }
    assert((Binary32 { bits: 0 }).value() == 0);
}

} // verus!
