//! Which spheres a ray can reach.
//!
//! A ray leaves `ro` in the direction `rd`, which has the length `unit`, so that
//! a direction can be given in fractions as fine as one likes. The arithmetic
//! here is exact: it says what the program's floating-point numbers stand for.

use crate::binary32::Binary32;
use crate::scene::{
    bound_centre, dist2, law_bound_contains_spheres, law_inside_bound, path_of, place, radius_of,
    BOUND_RADIUS,
};
use crate::screen::SPHERES;
use crate::trace::{counted, entry, nearest, ruled_out, Hit, EPS};
use vstd::prelude::*;

verus! {

/// The dot product.
pub open spec fn dot(a: (int, int, int), b: (int, int, int)) -> int {
    a.0 * b.0 + a.1 * b.1 + a.2 * b.2
}

/// The way from one point to another.
pub open spec fn way(from: (int, int, int), to: (int, int, int)) -> (int, int, int) {
    (to.0 - from.0, to.1 - from.1, to.2 - from.2)
}

/// A point in units that are `s` times finer.
pub open spec fn finer(p: (int, int, int), s: int) -> (int, int, int) {
    (s * p.0, s * p.1, s * p.2)
}

/// The point that a ray gets to after `m` parts in `s` of its direction, in
/// units that are `s` times finer.
pub open spec fn along(ro: (int, int, int), rd: (int, int, int), s: int, m: int) -> (
    int,
    int,
    int,
) {
    (s * ro.0 + m * rd.0, s * ro.1 + m * rd.1, s * ro.2 + m * rd.2)
}

/// How fast a ray moves away from a point, times its unit.
pub open spec fn approach(ro: (int, int, int), rd: (int, int, int), centre: (int, int, int)) -> int {
    dot(way(centre, ro), rd)
}

/// How far the ray's origin is outside a sphere, as a difference of squares.
pub open spec fn excess(ro: (int, int, int), centre: (int, int, int), radius: int) -> int {
    dist2(ro, centre) - radius * radius
}

/// The discriminant of a ray and a sphere, times the square of the unit.
pub open spec fn discriminant(
    ro: (int, int, int),
    rd: (int, int, int),
    unit: int,
    centre: (int, int, int),
    radius: int,
) -> int {
    let b = approach(ro, rd, centre);
    b * b - excess(ro, centre, radius) * (unit * unit)
}

/// Whether a ray passes a sphere by: it points away with its origin outside, or
/// misses the sphere entirely.
pub open spec fn passes_by(
    ro: (int, int, int),
    rd: (int, int, int),
    unit: int,
    centre: (int, int, int),
    radius: int,
) -> bool {
    ||| approach(ro, rd, centre) > 0 && excess(ro, centre, radius) > 0
    ||| discriminant(ro, rd, unit, centre, radius) < 0
}

/// Whether a point that the ray gets to, after `m` parts in `s` of its
/// direction, lies in a sphere.
pub open spec fn meets(
    ro: (int, int, int),
    rd: (int, int, int),
    centre: (int, int, int),
    radius: int,
    s: int,
    m: int,
) -> bool {
    s > 0 && m >= 0 && dist2(along(ro, rd, s, m), finer(centre, s)) <= (s * radius) * (s * radius)
}

/// The square of a mix of two numbers.
proof fn lemma_square_of_mix(s: int, x: int, m: int, y: int)
    ensures
        (s * x + m * y) * (s * x + m * y) == (s * s) * (x * x) + 2 * ((s * m) * (x * y)) + (m * m)
            * (y * y),
{
    let (a, b): (int, int) = (s * x, m * y);
    assert((a + b) * (a + b) == a * a + 2 * (a * b) + b * b) by (nonlinear_arith);
    assert((s * x) * (s * x) == (s * s) * (x * x)) by (nonlinear_arith);
    assert((s * x) * (m * y) == (s * m) * (x * y)) by (nonlinear_arith);
    assert((m * y) * (m * y) == (m * m) * (y * y)) by (nonlinear_arith);
}

/// The squared distance of a point on a ray, from what is known of its origin.
proof fn lemma_dist2_along(
    ro: (int, int, int),
    rd: (int, int, int),
    centre: (int, int, int),
    s: int,
    m: int,
)
    ensures
        dist2(along(ro, rd, s, m), finer(centre, s)) == (s * s) * dist2(ro, centre) + 2 * ((s * m)
            * approach(ro, rd, centre)) + (m * m) * dot(rd, rd),
{
    let o = way(centre, ro);
    let (ss, sm, mm): (int, int, int) = (s * s, s * m, m * m);
    lemma_square_of_mix(s, o.0, m, rd.0);
    lemma_square_of_mix(s, o.1, m, rd.1);
    lemma_square_of_mix(s, o.2, m, rd.2);
    assert(s * ro.0 + m * rd.0 - s * centre.0 == s * o.0 + m * rd.0) by (nonlinear_arith)
        requires
            o.0 == ro.0 - centre.0,
    ;
    assert(s * ro.1 + m * rd.1 - s * centre.1 == s * o.1 + m * rd.1) by (nonlinear_arith)
        requires
            o.1 == ro.1 - centre.1,
    ;
    assert(s * ro.2 + m * rd.2 - s * centre.2 == s * o.2 + m * rd.2) by (nonlinear_arith)
        requires
            o.2 == ro.2 - centre.2,
    ;
    lemma_times_sum(ss, o.0 * o.0, o.1 * o.1, o.2 * o.2);
    lemma_times_sum(sm, o.0 * rd.0, o.1 * rd.1, o.2 * rd.2);
    lemma_times_sum(mm, rd.0 * rd.0, rd.1 * rd.1, rd.2 * rd.2);
}

/// A product with a sum of three.
proof fn lemma_times_sum(k: int, x: int, y: int, z: int)
    ensures
        k * (x + y + z) == k * x + k * y + k * z,
{
    assert(k * (x + y + z) == k * x + k * y + k * z) by (nonlinear_arith);
}

/// A point of a ray lies in a sphere exactly if this does not exceed zero.
proof fn lemma_meets(
    ro: (int, int, int),
    rd: (int, int, int),
    unit: int,
    centre: (int, int, int),
    radius: int,
    s: int,
    m: int,
)
    requires
        dot(rd, rd) == unit * unit,
        s > 0,
        m >= 0,
    ensures
        meets(ro, rd, centre, radius, s, m) <==> (s * s) * excess(ro, centre, radius) + 2 * ((s * m)
            * approach(ro, rd, centre)) + (m * m) * (unit * unit) <= 0,
{
    let (ss, d, rr): (int, int, int) = (s * s, dist2(ro, centre), radius * radius);
    lemma_dist2_along(ro, rd, centre, s, m);
    assert((s * radius) * (s * radius) == (s * s) * (radius * radius)) by (nonlinear_arith);
    assert(ss * (d - rr) == ss * d - ss * rr) by (nonlinear_arith);
}

/// A ray that gets to any point of a sphere does not pass it by.
pub proof fn law_meeting_is_no_passing(
    ro: (int, int, int),
    rd: (int, int, int),
    unit: int,
    centre: (int, int, int),
    radius: int,
    s: int,
    m: int,
)
    requires
        unit > 0,
        dot(rd, rd) == unit * unit,
        meets(ro, rd, centre, radius, s, m),
    ensures
        !passes_by(ro, rd, unit, centre, radius),
{
    let (b, c, uu): (int, int, int) = (
        approach(ro, rd, centre),
        excess(ro, centre, radius),
        unit * unit,
    );
    lemma_meets(ro, rd, unit, centre, radius, s, m);
    let (ss, sm, mm): (int, int, int) = (s * s, s * m, m * m);
    assert(ss > 0 && sm >= 0 && mm >= 0 && uu > 0) by (nonlinear_arith)
        requires
            s > 0,
            m >= 0,
            unit > 0,
            ss == s * s,
            sm == s * m,
            mm == m * m,
            uu == unit * unit,
    ;
    if b > 0 && c > 0 {
        assert(ss * c > 0) by (nonlinear_arith)
            requires
                ss > 0,
                c > 0,
        ;
        assert(sm * b >= 0) by (nonlinear_arith)
            requires
                sm >= 0,
                b > 0,
        ;
        assert(mm * uu >= 0) by (nonlinear_arith)
            requires
                mm >= 0,
                uu > 0,
        ;
    }
    if b * b - c * uu < 0 {
        // Times the squared unit, the sum is above a square.
        let total: int = ss * c + 2 * (sm * b) + mm * uu;
        let root: int = s * b + m * uu;
        assert(uu * total <= 0) by (nonlinear_arith)
            requires
                uu > 0,
                total <= 0,
        ;
        lemma_times_sum(uu, ss * c, 2 * (sm * b), mm * uu);
        lemma_square_of_mix(s, b, m, uu);
        assert(uu * (ss * c) == ss * (c * uu)) by (nonlinear_arith);
        assert(uu * (2 * (sm * b)) == 2 * (sm * (b * uu))) by (nonlinear_arith);
        assert(uu * (mm * uu) == mm * (uu * uu)) by (nonlinear_arith);
        assert(ss * (c * uu) > ss * (b * b)) by (nonlinear_arith)
            requires
                ss > 0,
                c * uu > b * b,
        ;
        assert(root * root >= 0) by (nonlinear_arith);
    }
}

/// A ray that does not pass a sphere by gets to a point of it: the test is
/// exact.
pub proof fn law_no_passing_is_meeting(
    ro: (int, int, int),
    rd: (int, int, int),
    unit: int,
    centre: (int, int, int),
    radius: int,
) -> (at: (int, int))
    requires
        unit > 0,
        dot(rd, rd) == unit * unit,
        !passes_by(ro, rd, unit, centre, radius),
    ensures
        meets(ro, rd, centre, radius, at.0, at.1),
{
    let (b, c, uu): (int, int, int) = (
        approach(ro, rd, centre),
        excess(ro, centre, radius),
        unit * unit,
    );
    assert(uu > 0) by (nonlinear_arith)
        requires
            unit > 0,
            uu == unit * unit,
    ;
    if b <= 0 {
        // The point nearest to the centre lies ahead.
        let m: int = -b;
        let disc: int = b * b - c * uu;
        lemma_meets(ro, rd, unit, centre, radius, uu, m);
        assert((uu * uu) * c == uu * (c * uu)) by (nonlinear_arith);
        assert((uu * m) * b == -(uu * (b * b))) by (nonlinear_arith)
            requires
                m == -b,
        ;
        assert((m * m) * uu == uu * (b * b)) by (nonlinear_arith)
            requires
                m == -b,
        ;
        assert(uu * disc == uu * (b * b) - uu * (c * uu)) by (nonlinear_arith)
            requires
                disc == b * b - c * uu,
        ;
        assert(uu * disc >= 0) by (nonlinear_arith)
            requires
                uu > 0,
                disc >= 0,
        ;
        (uu, m)
    } else {
        // The origin lies inside.
        lemma_meets(ro, rd, unit, centre, radius, 1, 0);
        (1, 0)
    }
}

/// What passes a sphere by passes by every sphere inside it.
pub proof fn law_inner_sphere_is_passed_too(
    ro: (int, int, int),
    rd: (int, int, int),
    unit: int,
    centre: (int, int, int),
    radius: int,
    bound: (int, int, int),
    bound_radius: int,
)
    requires
        unit > 0,
        dot(rd, rd) == unit * unit,
        0 <= radius <= bound_radius,
        dist2(centre, bound) <= (bound_radius - radius) * (bound_radius - radius),
        passes_by(ro, rd, unit, bound, bound_radius),
    ensures
        passes_by(ro, rd, unit, centre, radius),
{
    if !passes_by(ro, rd, unit, centre, radius) {
        let (s, m) = law_no_passing_is_meeting(ro, rd, unit, centre, radius);
        let (gap, ss): (int, int) = (bound_radius - radius, s * s);
        // The same in finer units.
        lemma_dist2_along(centre, (0, 0, 0), bound, s, 0);
        assert(along(centre, (0, 0, 0), s, 0) == finer(centre, s));
        assert(ss * dist2(centre, bound) <= ss * (gap * gap)) by (nonlinear_arith)
            requires
                dist2(centre, bound) <= gap * gap,
                ss == s * s,
        ;
        assert((s * s) * (gap * gap) == (s * gap) * (s * gap)) by (nonlinear_arith);
        assert(s * gap == s * bound_radius - s * radius) by (nonlinear_arith)
            requires
                gap == bound_radius - radius,
        ;
        assert(0 <= s * radius <= s * bound_radius) by (nonlinear_arith)
            requires
                s > 0,
                0 <= radius <= bound_radius,
        ;
        law_inside_bound(
            along(ro, rd, s, m),
            finer(centre, s),
            finer(bound, s),
            s * radius,
            s * bound_radius,
        );
        law_meeting_is_no_passing(ro, rd, unit, bound, bound_radius, s, m);
    }
}

/// Whether a pattern has the sign of a number.
pub open spec fn same_sign(x: Binary32, v: int) -> bool {
    !x.nan() && (x.value() > 0 <==> v > 0) && (x.value() < 0 <==> v < 0)
}

/// Whether the numbers that a ray and a sphere are compared by have the signs of
/// what they stand for: the discriminant and, where it is not negative, the two
/// crossings. Both lie ahead if the ray approaches from outside, and the farther
/// one also if its origin is inside.
pub open spec fn signs_agree(
    ro: (int, int, int),
    rd: (int, int, int),
    unit: int,
    centre: (int, int, int),
    radius: int,
    disc: Binary32,
    near: Binary32,
    far: Binary32,
) -> bool {
    let (b, c) = (approach(ro, rd, centre), excess(ro, centre, radius));
    &&& same_sign(disc, discriminant(ro, rd, unit, centre, radius))
    &&& discriminant(ro, rd, unit, centre, radius) >= 0 ==> {
        &&& !near.nan() && !far.nan()
        &&& near.value() > 0 <==> b < 0 && c > 0
        &&& far.value() > 0 <==> b < 0 || c < 0
    }
}

/// A ray that enters a sphere does not pass it by.
pub proof fn law_entry_is_no_passing(
    ro: (int, int, int),
    rd: (int, int, int),
    unit: int,
    centre: (int, int, int),
    radius: int,
    disc: Binary32,
    near: Binary32,
    far: Binary32,
)
    requires
        signs_agree(ro, rd, unit, centre, radius, disc, near, far),
        entry(disc, near, far) is Some,
    ensures
        !passes_by(ro, rd, unit, centre, radius),
{
    assert((Binary32 { bits: 0 }).value() == 0);
    assert((Binary32 { bits: EPS }).value() >= 0);
}

/// Holding a ray against a bound only saves time and never changes the answer,
/// whatever spheres lie in the bound and whatever the floor: a ray that is ruled
/// out enters none of them, so the hits that count are those that there are. The
/// numbers handed in have the signs of what they stand for.
pub proof fn law_bound_only_saves_time(
    ro: (int, int, int),
    rd: (int, int, int),
    unit: int,
    bound: (int, int, int),
    bound_radius: int,
    b: Binary32,
    c: Binary32,
    disc: Binary32,
    spheres: Seq<((int, int, int), int)>,
    numbers: Seq<(Binary32, Binary32, Binary32)>,
    hits: Seq<Option<Binary32>>,
)
    requires
        unit > 0,
        dot(rd, rd) == unit * unit,
        same_sign(b, approach(ro, rd, bound)),
        same_sign(c, excess(ro, bound, bound_radius)),
        same_sign(disc, discriminant(ro, rd, unit, bound, bound_radius)),
        spheres.len() == hits.len(),
        numbers.len() == hits.len(),
        forall|i: int|
            0 <= i < hits.len() ==> {
                let (centre, radius) = #[trigger] spheres[i];
                &&& 0 <= radius <= bound_radius
                &&& dist2(centre, bound) <= (bound_radius - radius) * (bound_radius - radius)
            },
        forall|i: int|
            0 <= i < hits.len() ==> {
                let (d, near, far) = #[trigger] numbers[i];
                &&& signs_agree(ro, rd, unit, spheres[i].0, spheres[i].1, d, near, far)
                &&& hits[i] == entry(d, near, far)
            },
    ensures
        counted(ruled_out(b, c, disc), hits) == counted(false, hits),
        forall|floor: Option<Binary32>, t: Binary32, what: Hit| #[trigger]
            nearest(counted(ruled_out(b, c, disc), hits), floor, t, what) == nearest(
                counted(false, hits),
                floor,
                t,
                what,
            ),
{
    if ruled_out(b, c, disc) {
        assert((Binary32 { bits: 0 }).value() == 0);
        assert(passes_by(ro, rd, unit, bound, bound_radius));
        assert forall|i: int| 0 <= i < hits.len() implies #[trigger] hits[i] is None by {
            let (centre, radius) = spheres[i];
            let (d, near, far) = numbers[i];
            law_inner_sphere_is_passed_too(ro, rd, unit, centre, radius, bound, bound_radius);
            if entry(d, near, far) is Some {
                law_entry_is_no_passing(ro, rd, unit, centre, radius, d, near, far);
            }
        }
        assert(counted(true, hits) =~= hits);
    }
}

/// The spheres of the scene at one moment: each place and radius, where `moments`
/// gives the cosine and sine round each orbit and the sine of the bobbing, in
/// `fine`-ths.
pub open spec fn scene_at(fine: int, moments: Seq<(int, int, int)>) -> Seq<((int, int, int), int)> {
    Seq::new(
        SPHERES as nat,
        |i: int|
            (
                place(path_of(i), fine, moments[i].0, moments[i].1, moments[i].2),
                radius_of(i) * fine,
            ),
    )
}

/// At every moment of the animation, every sphere of the scene lies in the
/// scene's bound, as the saving asks for.
pub proof fn law_scene_lies_in_bound(fine: int, moments: Seq<(int, int, int)>, i: int)
    requires
        fine > 0,
        0 <= i < SPHERES,
        moments[i].0 * moments[i].0 + moments[i].1 * moments[i].1 <= fine * fine,
        -fine <= moments[i].2 <= fine,
    ensures
        ({
            let (centre, radius) = scene_at(fine, moments)[i];
            let big = BOUND_RADIUS * fine;
            &&& 0 <= radius <= big
            &&& dist2(centre, bound_centre(fine)) <= (big - radius) * (big - radius)
        }),
{
    let (cos, sin, lift) = moments[i];
    let (r, big): (int, int) = (radius_of(i) * fine, BOUND_RADIUS * fine);
    law_bound_contains_spheres(i, fine, cos, sin, lift);
    assert(0 <= r <= big) by (nonlinear_arith)
        requires
            r == radius_of(i) * fine,
            big == BOUND_RADIUS * fine,
            0 <= radius_of(i) <= BOUND_RADIUS,
            fine > 0,
    ;
    assert((BOUND_RADIUS - radius_of(i)) * fine == big - r) by (nonlinear_arith)
        requires
            r == radius_of(i) * fine,
            big == BOUND_RADIUS * fine,
    ;
}

} // verus!
