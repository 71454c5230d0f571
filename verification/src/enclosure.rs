//! Why a sphere's rectangle holds the sphere.
//!
//! The corners of the cube around a sphere are projected one by one. A
//! perspective projection keeps what lies between them between them, so the
//! rectangle around the projected corners is certain to enclose the sphere. The
//! projection is exact here; what the program computed may be off by half a
//! pixel, which the rectangle's margin makes up for.

use crate::binary32::{one, Binary32};
use crate::bounds::{
    around, clamped, extent_of, inside_out, law_corners_are_all_signs, law_extent_encloses, side,
    too_near, whole_screen, Corner, Extent, Rect,
};
use crate::camera::{column, column_under, row, row_under, seen_at, Camera};
use crate::reach::{dot, finer};
use crate::spans::lemma_column;
use vstd::arithmetic::power2::{lemma2_to64, lemma_pow2_adds, lemma_pow2_pos, pow2};
use vstd::prelude::*;

verus! {

/// How places relative to the eye become screen coordinates: the direction of
/// the depth, and for each of the two coordinates the direction in which it
/// grows, where it is in the middle of the view, and how fast it grows with the
/// slope. Screen coordinates are in units of 2^-149 pixels, so that directions
/// and growth can be scaled to whole numbers.
pub struct View {
    pub fwd: (int, int, int),
    pub right: (int, int, int),
    pub down: (int, int, int),
    pub middle_x: int,
    pub growth_x: int,
    pub middle_y: int,
    pub growth_y: int,
}

/// The view of a camera on a screen of `width` by `height` pixels.
pub open spec fn view_of(cam: Camera, width: int, height: int) -> View {
    let f = 2 * (cam.tan_over * cam.aspect_over);
    View {
        fwd: finer(cam.fwd, f),
        right: cam.right,
        down: cam.down,
        middle_x: width * (pow2(148) as int),
        growth_x: one() * (width * (cam.tan_under * cam.aspect_under)),
        middle_y: height * (pow2(148) as int),
        growth_y: one() * (height * (cam.tan_under * cam.aspect_over)),
    }
}

/// A place some way off another.
pub open spec fn off(v: (int, int, int), o: (int, int, int)) -> (int, int, int) {
    (v.0 + o.0, v.1 + o.1, v.2 + o.2)
}

/// A corner of the cube around a sphere.
#[verifier::opaque]
pub open spec fn corner_of(v: (int, int, int), r: int, k: int) -> (int, int, int) {
    off(v, (r * side(k, 0), r * side(k, 1), r * side(k, 2)))
}

/// Whether a place lies in front of the eye.
pub open spec fn in_front(fwd: (int, int, int), q: (int, int, int)) -> bool {
    dot(fwd, q) > 0
}

/// A screen coordinate of a place, times its depth: `middle` and, for each unit
/// of depth, `growth` times the way along `dir`.
pub open spec fn coordinate(
    fwd: (int, int, int),
    dir: (int, int, int),
    middle: int,
    growth: int,
    q: (int, int, int),
) -> int {
    middle * dot(fwd, q) + growth * dot(dir, q)
}

/// Whether a number is a place's screen coordinate to within half a pixel.
#[verifier::opaque]
pub open spec fn projected(
    value: int,
    fwd: (int, int, int),
    dir: (int, int, int),
    middle: int,
    growth: int,
    q: (int, int, int),
) -> bool {
    let d = dot(fwd, q);
    let exact = coordinate(fwd, dir, middle, growth, q);
    -(one() * d) <= 2 * (value * d - exact) <= one() * d
}

/// Whether a place in front of the eye is seen in a column, or row, of pixels.
#[verifier::opaque]
pub open spec fn seen_in(
    px: int,
    fwd: (int, int, int),
    dir: (int, int, int),
    middle: int,
    growth: int,
    q: (int, int, int),
) -> bool {
    let d = dot(fwd, q);
    let exact = coordinate(fwd, dir, middle, growth, q);
    d > 0 && (px * one()) * d <= exact && exact < ((px + 1) * one()) * d
}

/// One axis of a dot product: a side of the cube against a place inside it.
proof fn lemma_axis(g: int, v: int, o: int, r: int, s: int)
    requires
        -r <= o <= r,
        g > 0 ==> s == -1,
        g <= 0 ==> s == 1,
    ensures
        g * (v + r * s) <= g * (v + o),
{
    if g > 0 {
        assert(r * s == -r) by (nonlinear_arith)
            requires
                s == -1,
        ;
        assert(g * (v - r) <= g * (v + o)) by (nonlinear_arith)
            requires
                g > 0,
                -r <= o,
        ;
    } else {
        assert(r * s == r) by (nonlinear_arith)
            requires
                s == 1,
        ;
        assert(g * (v + r) <= g * (v + o)) by (nonlinear_arith)
            requires
                g <= 0,
                o <= r,
        ;
    }
}

/// Along any direction, some corner of a cube lies no farther than any place in
/// the cube.
proof fn lemma_corner_before(
    g: (int, int, int),
    v: (int, int, int),
    o: (int, int, int),
    r: int,
) -> (k: int)
    requires
        -r <= o.0 <= r && -r <= o.1 <= r && -r <= o.2 <= r,
    ensures
        0 <= k < 8,
        dot(g, corner_of(v, r, k)) <= dot(g, off(v, o)),
{
    reveal(corner_of);
    let x: int = if g.0 > 0 {
        -1
    } else {
        1
    };
    let y: int = if g.1 > 0 {
        -1
    } else {
        1
    };
    let z: int = if g.2 > 0 {
        -1
    } else {
        1
    };
    let k = law_corners_are_all_signs(x, y, z);
    lemma_axis(g.0, v.0, o.0, r, x);
    lemma_axis(g.1, v.1, o.1, r, y);
    lemma_axis(g.2, v.2, o.2, r, z);
    k
}

/// Along any direction, every place in a cube lies between two of its corners.
pub proof fn law_cube_between_corners(
    g: (int, int, int),
    v: (int, int, int),
    o: (int, int, int),
    r: int,
) -> (ks: (int, int))
    requires
        -r <= o.0 <= r && -r <= o.1 <= r && -r <= o.2 <= r,
    ensures
        0 <= ks.0 < 8 && 0 <= ks.1 < 8,
        dot(g, corner_of(v, r, ks.0)) <= dot(g, off(v, o)) <= dot(g, corner_of(v, r, ks.1)),
{
    let back = (-g.0, -g.1, -g.2);
    let lo = lemma_corner_before(g, v, o, r);
    let hi = lemma_corner_before(back, v, o, r);
    lemma_dot_back(g, corner_of(v, r, hi));
    lemma_dot_back(g, off(v, o));
    (lo, hi)
}

/// Turning a direction round turns the dot product round.
proof fn lemma_dot_back(g: (int, int, int), p: (int, int, int))
    ensures
        dot((-g.0, -g.1, -g.2), p) == -dot(g, p),
{
    assert((-g.0) * p.0 == -(g.0 * p.0)) by (nonlinear_arith);
    assert((-g.1) * p.1 == -(g.1 * p.1)) by (nonlinear_arith);
    assert((-g.2) * p.2 == -(g.2 * p.2)) by (nonlinear_arith);
}

/// The direction in which the slope of `q` along `dir` changes.
spec fn slope_direction(fwd: (int, int, int), dir: (int, int, int), q: (int, int, int)) -> (
    int,
    int,
    int,
) {
    let (d, a) = (dot(fwd, q), dot(dir, q));
    (d * dir.0 - a * fwd.0, d * dir.1 - a * fwd.1, d * dir.2 - a * fwd.2)
}

/// Along that direction, a place is where its own slope differs from that of
/// `q`.
proof fn lemma_slope(
    fwd: (int, int, int),
    dir: (int, int, int),
    q: (int, int, int),
    p: (int, int, int),
)
    ensures
        dot(slope_direction(fwd, dir, q), p) == dot(fwd, q) * dot(dir, p) - dot(dir, q) * dot(
            fwd,
            p,
        ),
{
    let (d, a): (int, int) = (dot(fwd, q), dot(dir, q));
    lemma_slope_axis(d, dir.0, a, fwd.0, p.0);
    lemma_slope_axis(d, dir.1, a, fwd.1, p.1);
    lemma_slope_axis(d, dir.2, a, fwd.2, p.2);
    assert(d * (dir.0 * p.0 + dir.1 * p.1 + dir.2 * p.2) == d * (dir.0 * p.0) + d * (dir.1 * p.1)
        + d * (dir.2 * p.2)) by (nonlinear_arith);
    assert(a * (fwd.0 * p.0 + fwd.1 * p.1 + fwd.2 * p.2) == a * (fwd.0 * p.0) + a * (fwd.1 * p.1)
        + a * (fwd.2 * p.2)) by (nonlinear_arith);
}

/// One axis of that.
proof fn lemma_slope_axis(d: int, x: int, a: int, y: int, p: int)
    ensures
        (d * x - a * y) * p == d * (x * p) - a * (y * p),
{
    assert((d * x - a * y) * p == d * (x * p) - a * (y * p)) by (nonlinear_arith);
}

/// Every place in a cube in front of the eye has a slope between those of two
/// corners: a perspective projection keeps what lies between the corners between
/// them.
pub proof fn law_slope_between_corners(
    fwd: (int, int, int),
    dir: (int, int, int),
    v: (int, int, int),
    o: (int, int, int),
    r: int,
) -> (ks: (int, int))
    requires
        -r <= o.0 <= r && -r <= o.1 <= r && -r <= o.2 <= r,
    ensures
        0 <= ks.0 < 8 && 0 <= ks.1 < 8,
        ({
            let q = off(v, o);
            let (p0, p1) = (corner_of(v, r, ks.0), corner_of(v, r, ks.1));
            &&& dot(dir, p0) * dot(fwd, q) <= dot(dir, q) * dot(fwd, p0)
            &&& dot(dir, p1) * dot(fwd, q) >= dot(dir, q) * dot(fwd, p1)
        }),
{
    let q = off(v, o);
    let g = slope_direction(fwd, dir, q);
    let ks = law_cube_between_corners(g, v, o, r);
    let (p0, p1) = (corner_of(v, r, ks.0), corner_of(v, r, ks.1));
    lemma_slope(fwd, dir, q, q);
    lemma_slope(fwd, dir, q, p0);
    lemma_slope(fwd, dir, q, p1);
    assert(dot(fwd, q) * dot(dir, q) == dot(dir, q) * dot(fwd, q)) by (nonlinear_arith);
    assert(dot(fwd, q) * dot(dir, p0) == dot(dir, p0) * dot(fwd, q)) by (nonlinear_arith);
    assert(dot(fwd, q) * dot(dir, p1) == dot(dir, p1) * dot(fwd, q)) by (nonlinear_arith);
    ks
}

/// What a corner's number says of the coordinate of a place beyond it.
/// `turn` is 1 for a corner with a smaller slope and -1 for one with a larger.
proof fn lemma_beyond(
    turn: int,
    value: int,
    middle: int,
    growth: int,
    ap: int,
    dp: int,
    aq: int,
    dq: int,
    half: int,
)
    requires
        turn == 1 || turn == -1,
        growth >= 0,
        dp > 0,
        dq > 0,
        turn * (ap * dq) <= turn * (aq * dp),
        turn * (2 * (value * dp - (middle * dp + growth * ap))) <= half * dp,
    ensures
        turn * (2 * (value * dq - (middle * dq + growth * aq))) <= half * dq,
{
    let (ep, eq): (int, int) = (
        value * dp - (middle * dp + growth * ap),
        value * dq - (middle * dq + growth * aq),
    );
    // Both errors over a common depth.
    assert(ep * dq == (value * dp) * dq - (middle * dp) * dq - (growth * ap) * dq)
        by (nonlinear_arith)
        requires
            ep == value * dp - (middle * dp + growth * ap),
    ;
    assert(eq * dp == (value * dq) * dp - (middle * dq) * dp - (growth * aq) * dp)
        by (nonlinear_arith)
        requires
            eq == value * dq - (middle * dq + growth * aq),
    ;
    assert((value * dp) * dq == (value * dq) * dp) by (nonlinear_arith);
    assert((middle * dp) * dq == (middle * dq) * dp) by (nonlinear_arith);
    assert((growth * ap) * dq == growth * (ap * dq)) by (nonlinear_arith);
    assert((growth * aq) * dp == growth * (aq * dp)) by (nonlinear_arith);
    assert(eq * dp - ep * dq == growth * (ap * dq) - growth * (aq * dp));
    let (x, y): (int, int) = (ap * dq, aq * dp);
    if turn == 1 {
        assert(growth * x <= growth * y) by (nonlinear_arith)
            requires
                growth >= 0,
                x <= y,
        ;
        assert((2 * ep) * dq <= (half * dp) * dq) by (nonlinear_arith)
            requires
                2 * ep <= half * dp,
                dq > 0,
        ;
        assert((2 * ep) * dq == 2 * (ep * dq)) by (nonlinear_arith);
        assert((half * dp) * dq == (half * dq) * dp) by (nonlinear_arith);
        assert(2 * eq <= half * dq) by (nonlinear_arith)
            requires
                2 * (eq * dp) <= (half * dq) * dp,
                dp > 0,
        ;
    } else {
        lemma_turned(turn, x);
        lemma_turned(turn, y);
        lemma_turned(turn, 2 * ep);
        lemma_turned(turn, 2 * eq);
        assert(growth * y <= growth * x) by (nonlinear_arith)
            requires
                growth >= 0,
                y <= x,
        ;
        assert((-(2 * ep)) * dq <= (half * dp) * dq) by (nonlinear_arith)
            requires
                -(2 * ep) <= half * dp,
                dq > 0,
        ;
        assert((-(2 * ep)) * dq == -(2 * (ep * dq))) by (nonlinear_arith);
        assert((half * dp) * dq == (half * dq) * dp) by (nonlinear_arith);
        assert(-(2 * eq) <= half * dq) by (nonlinear_arith)
            requires
                -(2 * (eq * dp)) <= (half * dq) * dp,
                dp > 0,
        ;
    }
}

/// Turning a number round.
proof fn lemma_turned(turn: int, x: int)
    requires
        turn == -1,
    ensures
        turn * x == -x,
{
    assert(turn * x == -x) by (nonlinear_arith)
        requires
            turn == -1,
    ;
}

/// Whether limits leave half a pixel before the coordinate of a place in front
/// of the eye and a pixel and a half behind it.
#[verifier::opaque]
spec fn limits_around(
    value: int,
    lo: int,
    hi: int,
    fwd: (int, int, int),
    dir: (int, int, int),
    middle: int,
    growth: int,
    p: (int, int, int),
) -> bool {
    &&& in_front(fwd, p)
    &&& projected(value, fwd, dir, middle, growth, p)
    &&& 2 * lo <= 2 * value - one()
    &&& 2 * hi >= 2 * value + 3 * one()
}

/// One screen coordinate: limits with a margin of half a pixel before and a
/// pixel and a half behind the corners' numbers enclose the pixel in which a
/// place in the cube is seen.
proof fn lemma_limits_enclose(
    fwd: (int, int, int),
    dir: (int, int, int),
    middle: int,
    growth: int,
    v: (int, int, int),
    o: (int, int, int),
    r: int,
    values: Seq<int>,
    lo: int,
    hi: int,
    px: int,
)
    requires
        growth >= 0,
        -r <= o.0 <= r && -r <= o.1 <= r && -r <= o.2 <= r,
        values.len() == 8,
        forall|k: int|
            0 <= k < 8 ==> #[trigger] limits_around(
                values[k],
                lo,
                hi,
                fwd,
                dir,
                middle,
                growth,
                corner_of(v, r, k),
            ),
        seen_in(px, fwd, dir, middle, growth, off(v, o)),
    ensures
        lo < (px + 1) * one(),
        hi >= (px + 1) * one(),
{
    reveal(projected);
    reveal(seen_in);
    let q = off(v, o);
    let (dq, aq, u): (int, int, int) = (dot(fwd, q), dot(dir, q), one());
    let exact: int = coordinate(fwd, dir, middle, growth, q);
    let ks = law_slope_between_corners(fwd, dir, v, o, r);
    let (p0, p1) = (corner_of(v, r, ks.0), corner_of(v, r, ks.1));
    let (v0, v1): (int, int) = (values[ks.0], values[ks.1]);
    assert(limits_around(v0, lo, hi, fwd, dir, middle, growth, p0));
    assert(limits_around(v1, lo, hi, fwd, dir, middle, growth, p1));
    reveal(limits_around);
    lemma_beyond(1, v0, middle, growth, dot(dir, p0), dot(fwd, p0), aq, dq, u);
    lemma_beyond(-1, v1, middle, growth, dot(dir, p1), dot(fwd, p1), aq, dq, u);
    let end: int = (px + 1) * u;
    assert(lo < end) by (nonlinear_arith)
        requires
            2 * lo <= 2 * v0 - u,
            2 * (v0 * dq - exact) <= u * dq,
            exact < end * dq,
            dq > 0,
    ;
    assert((px * u) * dq + u * dq == end * dq) by (nonlinear_arith)
        requires
            end == (px + 1) * u,
    ;
    assert(hi >= end) by (nonlinear_arith)
        requires
            2 * hi >= 2 * v1 + 3 * u,
            -(2 * (v1 * dq - exact)) <= u * dq,
            end * dq - u * dq <= exact,
            dq > 0,
    ;
}

/// Limits that enclose a pixel on the screen still do when rounded to pixels.
proof fn lemma_clamped_limits(lo: Binary32, hi: Binary32, size: int, px: int)
    requires
        !lo.nan() && !hi.nan(),
        lo.value() < (px + 1) * one(),
        hi.value() >= (px + 1) * one(),
        0 <= px < size <= u32::MAX,
    ensures
        clamped(lo, size) <= px < clamped(hi, size),
{
    lemma_pow2_pos(149);
    lemma_column(lo.value(), px + 1);
    lemma_column(hi.value(), px + 1);
    assert((px + 1) * one() > 0) by (nonlinear_arith)
        requires
            px >= 0,
            one() > 0,
    ;
}

/// Limits around the whole screen enclose every pixel on it.
proof fn lemma_screen_limits(lo: int, hi: int, size: int, px: int)
    requires
        2 * lo <= -one(),
        2 * hi >= 2 * (size * one()) + 3 * one(),
        0 <= px < size,
    ensures
        lo < (px + 1) * one(),
        hi >= (px + 1) * one(),
{
    lemma_pow2_pos(149);
    assert(0 < (px + 1) * one() <= size * one()) by (nonlinear_arith)
        requires
            0 <= px < size,
            one() > 0,
    ;
}

/// A coordinate of a place in a ball is no larger than the radius.
proof fn lemma_in_cube(x: int, rest: int, r: int)
    requires
        x * x + rest <= r * r,
        rest >= 0,
        r >= 0,
    ensures
        -r <= x <= r,
{
    assert(-r <= x <= r) by (nonlinear_arith)
        requires
            x * x <= r * r,
            r >= 0,
    ;
}

/// Whether the numbers of a corner are what they stand for: its depth is
/// positive, and its screen coordinates are right to within half a pixel.
pub open spec fn corner_projected(view: View, p: (int, int, int), c: Corner) -> bool {
    &&& in_front(view.fwd, p)
    &&& !c.px.nan() && !c.py.nan()
    &&& projected(c.px.value(), view.fwd, view.right, view.middle_x, view.growth_x, p)
    &&& projected(c.py.value(), view.fwd, view.down, view.middle_y, view.growth_y, p)
}

/// Whether the numbers of all corners are what they stand for.
pub open spec fn corners_projected(
    view: View,
    v: (int, int, int),
    r: int,
    corners: Seq<Corner>,
) -> bool {
    forall|k: int|
        0 <= k < 8 ==> #[trigger] corner_projected(view, corner_of(v, r, k), corners[k])
}

/// Whether any corner is level with the eye or behind it.
pub open spec fn any_too_near(corners: Seq<Corner>) -> bool {
    exists|k: int| 0 <= k < corners.len() && too_near(#[trigger] corners[k])
}

/// Whether an extent was widened by its margin: a pixel before and two behind,
/// each to within half a pixel.
#[verifier::opaque]
pub open spec fn with_margin(e: Extent, wide: Extent) -> bool {
    &&& !wide.x0.nan() && !wide.y0.nan() && !wide.x1.nan() && !wide.y1.nan()
    &&& 2 * wide.x0.value() <= 2 * e.x0.value() - one()
    &&& 2 * wide.y0.value() <= 2 * e.y0.value() - one()
    &&& 2 * wide.x1.value() >= 2 * e.x1.value() + 3 * one()
    &&& 2 * wide.y1.value() >= 2 * e.y1.value() + 3 * one()
}

/// Whether an extent leaves half a pixel before a corner and a pixel and a half
/// behind it.
#[verifier::opaque]
spec fn margin_around(wide: Extent, c: Corner) -> bool {
    &&& 2 * wide.x0.value() <= 2 * c.px.value() - one()
    &&& 2 * wide.y0.value() <= 2 * c.py.value() - one()
    &&& 2 * wide.x1.value() >= 2 * c.px.value() + 3 * one()
    &&& 2 * wide.y1.value() >= 2 * c.py.value() + 3 * one()
}

/// A widened extent leaves its margin around every corner that it was built
/// around.
proof fn lemma_margin(corners: Seq<Corner>, w: Binary32, h: Binary32, wide: Extent, k: int)
    requires
        corners.len() == 8,
        !any_too_near(corners),
        forall|j: int|
            0 <= j < 8 ==> !(#[trigger] corners[j]).px.nan() && !corners[j].py.nan(),
        !w.nan() && !h.nan(),
        with_margin(extent_of(corners, w, h), wide),
        0 <= k < 8,
    ensures
        margin_around(wide, corners[k]),
{
    reveal(with_margin);
    reveal(margin_around);
    let start = inside_out(w, h);
    assert(extent_of(corners, w, h) == around(start, corners));
    law_extent_encloses(start, corners, k);
}

/// The columns of a sphere lie between the limits of its extent.
proof fn lemma_columns_enclosed(
    view: View,
    v: (int, int, int),
    radius: int,
    o: (int, int, int),
    corners: Seq<Corner>,
    wide: Extent,
    at: int,
)
    requires
        view.growth_x >= 0,
        -radius <= o.0 <= radius && -radius <= o.1 <= radius && -radius <= o.2 <= radius,
        corners_projected(view, v, radius, corners),
        forall|k: int| 0 <= k < 8 ==> margin_around(wide, #[trigger] corners[k]),
        seen_in(at, view.fwd, view.right, view.middle_x, view.growth_x, off(v, o)),
    ensures
        wide.x0.value() < (at + 1) * one(),
        wide.x1.value() >= (at + 1) * one(),
{
    let values = Seq::new(8, |k: int| corners[k].px.value());
    let (lo, hi): (int, int) = (wide.x0.value(), wide.x1.value());
    assert forall|k: int| 0 <= k < 8 implies #[trigger] limits_around(
        values[k],
        lo,
        hi,
        view.fwd,
        view.right,
        view.middle_x,
        view.growth_x,
        corner_of(v, radius, k),
    ) by {
        assert(corner_projected(view, corner_of(v, radius, k), corners[k]));
        assert(margin_around(wide, corners[k]));
        reveal(margin_around);
        reveal(limits_around);
    }
    lemma_limits_enclose(
        view.fwd,
        view.right,
        view.middle_x,
        view.growth_x,
        v,
        o,
        radius,
        values,
        lo,
        hi,
        at,
    );
}

/// The rows of a sphere lie between the limits of its extent.
proof fn lemma_rows_enclosed(
    view: View,
    v: (int, int, int),
    radius: int,
    o: (int, int, int),
    corners: Seq<Corner>,
    wide: Extent,
    at: int,
)
    requires
        view.growth_y >= 0,
        -radius <= o.0 <= radius && -radius <= o.1 <= radius && -radius <= o.2 <= radius,
        corners_projected(view, v, radius, corners),
        forall|k: int| 0 <= k < 8 ==> margin_around(wide, #[trigger] corners[k]),
        seen_in(at, view.fwd, view.down, view.middle_y, view.growth_y, off(v, o)),
    ensures
        wide.y0.value() < (at + 1) * one(),
        wide.y1.value() >= (at + 1) * one(),
{
    let values = Seq::new(8, |k: int| corners[k].py.value());
    let (lo, hi): (int, int) = (wide.y0.value(), wide.y1.value());
    assert forall|k: int| 0 <= k < 8 implies #[trigger] limits_around(
        values[k],
        lo,
        hi,
        view.fwd,
        view.down,
        view.middle_y,
        view.growth_y,
        corner_of(v, radius, k),
    ) by {
        assert(corner_projected(view, corner_of(v, radius, k), corners[k]));
        assert(margin_around(wide, corners[k]));
        reveal(margin_around);
        reveal(limits_around);
    }
    lemma_limits_enclose(
        view.fwd,
        view.down,
        view.middle_y,
        view.growth_y,
        v,
        o,
        radius,
        values,
        lo,
        hi,
        at,
    );
}

/// The rectangle of a view's extent holds every pixel in which a point of the
/// sphere is seen.
proof fn lemma_rect_encloses(
    view: View,
    v: (int, int, int),
    radius: int,
    o: (int, int, int),
    corners: Seq<Corner>,
    w: Binary32,
    h: Binary32,
    width: int,
    height: int,
    wide: Extent,
    rect: Rect,
    px: int,
    py: int,
)
    requires
        view.growth_x >= 0 && view.growth_y >= 0,
        radius >= 0,
        dot(o, o) <= radius * radius,
        corners.len() == 8,
        any_too_near(corners) || corners_projected(view, v, radius, corners),
        !w.nan() && w.value() == width * one(),
        !h.nan() && h.value() == height * one(),
        with_margin(extent_of(corners, w, h), wide),
        rect.x0 == clamped(wide.x0, width) && rect.x1 == clamped(wide.x1, width),
        rect.y0 == clamped(wide.y0, height) && rect.y1 == clamped(wide.y1, height),
        seen_in(px, view.fwd, view.right, view.middle_x, view.growth_x, off(v, o)),
        seen_in(py, view.fwd, view.down, view.middle_y, view.growth_y, off(v, o)),
        0 <= px < width <= u32::MAX,
        0 <= py < height <= u32::MAX,
    ensures
        rect.has(px, py),
{
    assert(o.0 * o.0 >= 0) by (nonlinear_arith);
    assert(o.1 * o.1 >= 0) by (nonlinear_arith);
    assert(o.2 * o.2 >= 0) by (nonlinear_arith);
    lemma_in_cube(o.0, o.1 * o.1 + o.2 * o.2, radius);
    lemma_in_cube(o.1, o.0 * o.0 + o.2 * o.2, radius);
    lemma_in_cube(o.2, o.0 * o.0 + o.1 * o.1, radius);
    if any_too_near(corners) {
        lemma_whole_screen(w, h, width, height, wide, px, py);
    } else {
        assert forall|k: int| 0 <= k < 8 implies margin_around(wide, #[trigger] corners[k]) by {
            assert forall|j: int| 0 <= j < 8 implies !(#[trigger] corners[j]).px.nan()
                && !corners[j].py.nan() by {
                assert(corner_projected(view, corner_of(v, radius, j), corners[j]));
            }
            lemma_margin(corners, w, h, wide, k);
        }
        lemma_columns_enclosed(view, v, radius, o, corners, wide, px);
        lemma_rows_enclosed(view, v, radius, o, corners, wide, py);
    }
    assert(!wide.x0.nan() && !wide.x1.nan() && !wide.y0.nan() && !wide.y1.nan()) by {
        reveal(with_margin);
    }
    lemma_clamped_limits(wide.x0, wide.x1, width, px);
    lemma_clamped_limits(wide.y0, wide.y1, height, py);
}

/// Limits around the whole screen, for both coordinates.
proof fn lemma_whole_screen(
    w: Binary32,
    h: Binary32,
    width: int,
    height: int,
    wide: Extent,
    px: int,
    py: int,
)
    requires
        w.value() == width * one(),
        h.value() == height * one(),
        with_margin(whole_screen(w, h), wide),
        0 <= px < width,
        0 <= py < height,
    ensures
        wide.x0.value() < (px + 1) * one() && wide.x1.value() >= (px + 1) * one(),
        wide.y0.value() < (py + 1) * one() && wide.y1.value() >= (py + 1) * one(),
{
    reveal(with_margin);
    assert((Binary32 { bits: 0 }).value() == 0);
    lemma_screen_limits(wide.x0.value(), wide.x1.value(), width, px);
    lemma_screen_limits(wide.y0.value(), wide.y1.value(), height, py);
}

/// One coordinate of a camera's view: scaled by a factor, it is the one that the
/// camera's own numbers give.
proof fn lemma_view_axis(
    size: int,
    px: int,
    fwd: (int, int, int),
    dir: (int, int, int),
    q: (int, int, int),
    grow: int,
    under: int,
    factor: int,
)
    requires
        dot(fwd, q) > 0,
        under > 0,
        factor > 0,
        px * (2 * (under * dot(fwd, q))) <= size * (under * dot(fwd, q) + grow * dot(dir, q)),
        size * (under * dot(fwd, q) + grow * dot(dir, q)) < (px + 1) * (2 * (under * dot(fwd, q))),
    ensures
        seen_in(
            px,
            finer(fwd, 2 * (under * factor)),
            dir,
            size * (pow2(148) as int),
            one() * (size * (grow * factor)),
            q,
        ),
{
    reveal(seen_in);
    let (d, a, u): (int, int, int) = (dot(fwd, q), dot(dir, q), one());
    let (f, half): (int, int) = (2 * (under * factor), pow2(148) as int);
    lemma_pow2_pos(149);
    lemma_pow2_adds(148, 1);
    lemma2_to64();
    lemma_dot_finer(fwd, q, f);
    let (e, n): (int, int) = (under * d, size * (under * d + grow * a));
    assert(f * d == 2 * (factor * e)) by (nonlinear_arith)
        requires
            f == 2 * (under * factor),
            e == under * d,
    ;
    assert(e > 0) by (nonlinear_arith)
        requires
            under > 0,
            d > 0,
            e == under * d,
    ;
    assert(factor * e > 0) by (nonlinear_arith)
        requires
            factor > 0,
            e > 0,
    ;
    // The exact coordinate is the camera's numerator, scaled.
    let fu: int = factor * u;
    assert((size * half) * (2 * (factor * e)) == fu * (size * e)) by (nonlinear_arith)
        requires
            u == 2 * half,
            fu == factor * u,
    ;
    assert((u * (size * (grow * factor))) * a == fu * (size * (grow * a))) by (nonlinear_arith)
        requires
            fu == factor * u,
    ;
    assert(n == size * e + size * (grow * a)) by (nonlinear_arith)
        requires
            n == size * (under * d + grow * a),
            e == under * d,
    ;
    assert(fu * n == fu * (size * e) + fu * (size * (grow * a))) by (nonlinear_arith)
        requires
            n == size * e + size * (grow * a),
    ;
    assert(fu > 0) by (nonlinear_arith)
        requires
            factor > 0,
            u > 0,
            fu == factor * u,
    ;
    assert((px * (2 * e)) * fu <= n * fu) by (nonlinear_arith)
        requires
            px * (2 * e) <= n,
            fu > 0,
    ;
    assert(n * fu < ((px + 1) * (2 * e)) * fu) by (nonlinear_arith)
        requires
            n < (px + 1) * (2 * e),
            fu > 0,
    ;
    assert(n * fu == fu * n) by (nonlinear_arith);
    assert((px * (2 * e)) * fu == (px * u) * (2 * (factor * e))) by (nonlinear_arith)
        requires
            fu == factor * u,
    ;
    assert(((px + 1) * (2 * e)) * fu == ((px + 1) * u) * (2 * (factor * e))) by (nonlinear_arith)
        requires
            fu == factor * u,
    ;
}

/// The dot product with a direction in finer units.
proof fn lemma_dot_finer(a: (int, int, int), b: (int, int, int), s: int)
    ensures
        dot(finer(a, s), b) == s * dot(a, b),
{
    assert((s * a.0) * b.0 == s * (a.0 * b.0)) by (nonlinear_arith);
    assert((s * a.1) * b.1 == s * (a.1 * b.1)) by (nonlinear_arith);
    assert((s * a.2) * b.2 == s * (a.2 * b.2)) by (nonlinear_arith);
    assert(s * (a.0 * b.0 + a.1 * b.1 + a.2 * b.2) == s * (a.0 * b.0) + s * (a.1 * b.1) + s * (a.2
        * b.2)) by (nonlinear_arith);
}

/// What a camera sees in a pixel is seen in that column and row of its view.
proof fn lemma_view_of(cam: Camera, width: int, height: int, q: (int, int, int), px: int, py: int)
    requires
        cam.wf(),
        seen_at(cam, width, height, q, px, py),
    ensures
        ({
            let view = view_of(cam, width, height);
            &&& seen_in(px, view.fwd, view.right, view.middle_x, view.growth_x, q)
            &&& seen_in(py, view.fwd, view.down, view.middle_y, view.growth_y, q)
        }),
{
    let (tn, td, an, ad): (int, int, int, int) = (
        cam.tan_over,
        cam.tan_under,
        cam.aspect_over,
        cam.aspect_under,
    );
    assert(tn * an > 0) by (nonlinear_arith)
        requires
            tn > 0,
            an > 0,
    ;
    lemma_view_axis(width, px, cam.fwd, cam.right, q, td * ad, tn * an, 1);
    lemma_view_axis(height, py, cam.fwd, cam.down, q, td, tn, an);
    assert((td * ad) * 1 == td * ad) by (nonlinear_arith);
    assert((tn * an) * 1 == tn * an) by (nonlinear_arith);
}

/// A sphere's rectangle encloses the sphere: whatever point of it, in front of
/// the eye, a camera sees in a pixel on the screen, that pixel lies in the
/// rectangle. `v` is the centre and `o` the way from there to the point, both
/// relative to the eye; `w` and `h` are the size of the screen. Either some
/// corner is taken to be too near to be projected, or the corners' numbers are
/// what the camera gives to within half a pixel.
pub proof fn law_rect_encloses_sphere(
    cam: Camera,
    v: (int, int, int),
    radius: int,
    o: (int, int, int),
    corners: Seq<Corner>,
    w: Binary32,
    h: Binary32,
    width: int,
    height: int,
    wide: Extent,
    rect: Rect,
    px: int,
    py: int,
)
    requires
        cam.wf(),
        radius >= 0,
        dot(o, o) <= radius * radius,
        corners.len() == 8,
        any_too_near(corners) || corners_projected(
            view_of(cam, width, height),
            v,
            radius,
            corners,
        ),
        !w.nan() && w.value() == width * one(),
        !h.nan() && h.value() == height * one(),
        with_margin(extent_of(corners, w, h), wide),
        rect.x0 == clamped(wide.x0, width) && rect.x1 == clamped(wide.x1, width),
        rect.y0 == clamped(wide.y0, height) && rect.y1 == clamped(wide.y1, height),
        seen_at(cam, width, height, off(v, o), px, py),
        0 <= px < width <= u32::MAX,
        0 <= py < height <= u32::MAX,
    ensures
        rect.has(px, py),
{
    let view = view_of(cam, width, height);
    lemma_pow2_pos(149);
    lemma_view_of(cam, width, height, off(v, o), px, py);
    lemma_growth(width, cam.tan_under, cam.aspect_under);
    lemma_growth(height, cam.tan_under, cam.aspect_over);
    lemma_rect_encloses(
        view,
        v,
        radius,
        o,
        corners,
        w,
        h,
        width,
        height,
        wide,
        rect,
        px,
        py,
    );
}

/// Screen coordinates grow with the slope.
proof fn lemma_growth(size: int, a: int, b: int)
    requires
        size > 0,
        a > 0,
        b > 0,
    ensures
        one() * (size * (a * b)) >= 0,
{
    lemma_pow2_pos(149);
    assert(a * b > 0) by (nonlinear_arith)
        requires
            a > 0,
            b > 0,
    ;
    let c: int = a * b;
    assert(size * c > 0) by (nonlinear_arith)
        requires
            size > 0,
            c > 0,
    ;
    let d: int = size * c;
    assert(one() * d >= 0) by (nonlinear_arith)
        requires
            one() > 0,
            d > 0,
    ;
}

/// The exact projection of a sphere lies between those of the corners of its
/// cube, in columns and in rows: for each there is a corner that is projected no
/// farther, and one that is projected no less far. Nothing is rounded here.
pub proof fn law_projection_between_corners(
    cam: Camera,
    width: int,
    height: int,
    v: (int, int, int),
    o: (int, int, int),
    radius: int,
) -> (ks: (int, int, int, int))
    requires
        cam.wf(),
        width > 0 && height > 0,
        radius >= 0,
        dot(o, o) <= radius * radius,
    ensures
        0 <= ks.0 < 8 && 0 <= ks.1 < 8 && 0 <= ks.2 < 8 && 0 <= ks.3 < 8,
        ({
            let q = off(v, o);
            let (left, right) = (corner_of(v, radius, ks.0), corner_of(v, radius, ks.1));
            let (top, bottom) = (corner_of(v, radius, ks.2), corner_of(v, radius, ks.3));
            &&& column(cam, width, left) * column_under(cam, q) <= column(cam, width, q)
                * column_under(cam, left)
            &&& column(cam, width, right) * column_under(cam, q) >= column(cam, width, q)
                * column_under(cam, right)
            &&& row(cam, height, top) * row_under(cam, q) <= row(cam, height, q) * row_under(cam, top)
            &&& row(cam, height, bottom) * row_under(cam, q) >= row(cam, height, q) * row_under(
                cam,
                bottom,
            )
        }),
{
    assert(o.0 * o.0 >= 0) by (nonlinear_arith);
    assert(o.1 * o.1 >= 0) by (nonlinear_arith);
    assert(o.2 * o.2 >= 0) by (nonlinear_arith);
    lemma_in_cube(o.0, o.1 * o.1 + o.2 * o.2, radius);
    lemma_in_cube(o.1, o.0 * o.0 + o.2 * o.2, radius);
    lemma_in_cube(o.2, o.0 * o.0 + o.1 * o.1, radius);
    let q = off(v, o);
    let xs = law_slope_between_corners(cam.fwd, cam.right, v, o, radius);
    let ys = law_slope_between_corners(cam.fwd, cam.down, v, o, radius);
    let (left, right) = (corner_of(v, radius, xs.0), corner_of(v, radius, xs.1));
    let (top, bottom) = (corner_of(v, radius, ys.0), corner_of(v, radius, ys.1));
    let (dq, aq, bq): (int, int, int) = (dot(cam.fwd, q), dot(cam.right, q), dot(cam.down, q));
    let (kx, gx): (int, int) = (
        cam.tan_over * cam.aspect_over,
        cam.tan_under * cam.aspect_under,
    );
    assert(kx > 0 && gx > 0) by (nonlinear_arith)
        requires
            kx == cam.tan_over * cam.aspect_over,
            gx == cam.tan_under * cam.aspect_under,
            cam.tan_over > 0 && cam.aspect_over > 0 && cam.tan_under > 0 && cam.aspect_under > 0,
    ;
    lemma_coordinate_order(width, kx, gx, dot(cam.right, left), dot(cam.fwd, left), aq, dq);
    lemma_coordinate_order(width, kx, gx, aq, dq, dot(cam.right, right), dot(cam.fwd, right));
    lemma_coordinate_order(
        height,
        cam.tan_over,
        cam.tan_under,
        dot(cam.down, top),
        dot(cam.fwd, top),
        bq,
        dq,
    );
    lemma_coordinate_order(
        height,
        cam.tan_over,
        cam.tan_under,
        bq,
        dq,
        dot(cam.down, bottom),
        dot(cam.fwd, bottom),
    );
    (xs.0, xs.1, ys.0, ys.1)
}

/// Slopes in order give coordinates in order, over their common depth.
proof fn lemma_coordinate_order(size: int, k: int, g: int, ap: int, dp: int, aq: int, dq: int)
    requires
        size > 0,
        k > 0,
        g > 0,
        ap * dq <= aq * dp,
    ensures
        (size * (k * dp + g * ap)) * (2 * (k * dq)) <= (size * (k * dq + g * aq)) * (2 * (k * dp)),
{
    let (x, y, kg): (int, int, int) = (ap * dq, aq * dp, k * g);
    lemma_coordinate_product(size, k, g, ap, dp, dq);
    lemma_coordinate_product(size, k, g, aq, dq, dp);
    assert((k * dp) * (k * dq) == (k * dq) * (k * dp)) by (nonlinear_arith);
    assert(kg > 0) by (nonlinear_arith)
        requires
            k > 0,
            g > 0,
            kg == k * g,
    ;
    assert(size * kg > 0) by (nonlinear_arith)
        requires
            size > 0,
            kg > 0,
    ;
    let f: int = size * kg;
    assert(f * x <= f * y) by (nonlinear_arith)
        requires
            f > 0,
            x <= y,
    ;
}

/// A coordinate over another place's depth.
proof fn lemma_coordinate_product(size: int, k: int, g: int, a: int, d: int, e: int)
    ensures
        (size * (k * d + g * a)) * (2 * (k * e)) == 2 * (size * ((k * d) * (k * e))) + 2 * ((size
            * (k * g)) * (a * e)),
{
    let (kd, ke, ga): (int, int, int) = (k * d, k * e, g * a);
    assert((size * (kd + ga)) * (2 * ke) == 2 * (size * (kd * ke)) + 2 * (size * (ga * ke)))
        by (nonlinear_arith);
    assert((g * a) * (k * e) == (k * g) * (a * e)) by (nonlinear_arith);
    let (kg, ae): (int, int) = (k * g, a * e);
    assert(size * (kg * ae) == (size * kg) * ae) by (nonlinear_arith);
}

} // verus!
