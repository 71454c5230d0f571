//! Where on the screen a sphere can be.
//!
//! Rays are only worth casting where a sphere might be. The corners of the cube
//! around a sphere are projected by the caller; the rectangle around them is
//! taken here. One rectangle per sphere rather than one around all of them
//! matters: their union would cover half the screen.

use crate::binary32::{law_whole_part, one, Binary32};
use vstd::arithmetic::div_mod::{lemma_div_is_ordered, lemma_fundamental_div_mod_converse};
use vstd::arithmetic::power2::lemma_pow2_pos;
use vstd::prelude::*;

verus! {

/// Bit pattern of 0.05: a corner no deeper than this is level with the eye or
/// behind it.
pub const NEAR_DEPTH: u32 = 0x3d4c_cccd;

/// A rectangle of pixels, half-open on the far edge.
#[derive(Clone, Copy, Debug, PartialEq, Eq, Structural)]
pub struct Rect {
    pub x0: usize,
    pub y0: usize,
    pub x1: usize,
    pub y1: usize,
}

impl Rect {
    /// Whether a pixel lies in the rectangle.
    pub open spec fn has(self, px: int, py: int) -> bool {
        self.x0 <= px < self.x1 && self.y0 <= py < self.y1
    }

    /// Whether the rectangle holds no pixel.
    pub open spec fn empty(self) -> bool {
        self.x1 <= self.x0 || self.y1 <= self.y0
    }

    /// Whether the rectangle holds no pixel.
    pub fn is_empty(&self) -> (r: bool)
        ensures
            r == self.empty(),
    {
        self.x1 <= self.x0 || self.y1 <= self.y0
    }
}

/// Which way one corner of a cube lies from its centre along one axis: the
/// bits of the corner's number say so.
pub open spec fn side(corner: int, axis: int) -> int {
    let bit = if axis == 0 {
        corner % 2
    } else if axis == 1 {
        corner / 2 % 2
    } else {
        corner / 4 % 2
    };
    2 * bit - 1
}

/// The direction of a corner of a cube from its centre, one sign per axis.
pub fn cube_corner(corner: usize) -> (r: [i32; 3])
    requires
        corner < 8,
    ensures
        forall|axis: int| 0 <= axis < 3 ==> #[trigger] r@[axis] == side(corner as int, axis),
{
    let x: i32 = if corner % 2 == 0 {
        -1
    } else {
        1
    };
    let y: i32 = if corner / 2 % 2 == 0 {
        -1
    } else {
        1
    };
    let z: i32 = if corner / 4 % 2 == 0 {
        -1
    } else {
        1
    };
    [x, y, z]
}

/// The eight corners are the eight combinations of signs, each once.
pub proof fn law_corners_are_all_signs(x: int, y: int, z: int) -> (corner: int)
    requires
        x == -1 || x == 1,
        y == -1 || y == 1,
        z == -1 || z == 1,
    ensures
        0 <= corner < 8,
        side(corner, 0) == x && side(corner, 1) == y && side(corner, 2) == z,
        forall|k: int|
            0 <= k < 8 ==> ((side(k, 0) == x && side(k, 1) == y && #[trigger] side(k, 2) == z)
                <==> k == corner),
{
    (x + 1) / 2 + (y + 1) + 2 * (z + 1)
}

/// One corner of the cube around a sphere: its depth in front of the eye and
/// the screen position that it projects to.
#[derive(Clone, Copy, Debug, PartialEq, Eq, Structural)]
pub struct Corner {
    pub depth: Binary32,
    pub px: Binary32,
    pub py: Binary32,
}

/// The stretch of the screen that a projected cube takes up, before it is
/// rounded to pixels.
#[derive(Clone, Copy, Debug, PartialEq, Eq, Structural)]
pub struct Extent {
    pub x0: Binary32,
    pub y0: Binary32,
    pub x1: Binary32,
    pub y1: Binary32,
}

/// Whether a corner is level with the eye or behind it, so that projecting it
/// would give a wrong place.
pub open spec fn too_near(c: Corner) -> bool {
    c.depth.at_most(Binary32 { bits: NEAR_DEPTH })
}

/// The extent widened to take in one more corner. What is no number widens
/// nothing.
pub open spec fn widened(e: Extent, c: Corner) -> Extent {
    Extent {
        x0: if c.px.below(e.x0) {
            c.px
        } else {
            e.x0
        },
        y0: if c.py.below(e.y0) {
            c.py
        } else {
            e.y0
        },
        x1: if e.x1.below(c.px) {
            c.px
        } else {
            e.x1
        },
        y1: if e.y1.below(c.py) {
            c.py
        } else {
            e.y1
        },
    }
}

/// The extent around a number of corners, starting from an empty one.
pub open spec fn around(start: Extent, corners: Seq<Corner>) -> Extent
    decreases corners.len(),
{
    if corners.len() == 0 {
        start
    } else {
        widened(around(start, corners.drop_last()), corners.last())
    }
}

/// The extent of no corner at all on a screen of this size: turned inside out,
/// so that any corner on the screen widens it.
pub open spec fn inside_out(w: Binary32, h: Binary32) -> Extent {
    let zero = Binary32 { bits: 0 };
    Extent { x0: w, y0: h, x1: zero, y1: zero }
}

/// The whole screen.
pub open spec fn whole_screen(w: Binary32, h: Binary32) -> Extent {
    let zero = Binary32 { bits: 0 };
    Extent { x0: zero, y0: zero, x1: w, y1: h }
}

/// The extent of a cube with these corners on a screen of this size: around
/// all of them, or the whole screen as soon as one cannot be projected.
pub open spec fn extent_of(corners: Seq<Corner>, w: Binary32, h: Binary32) -> Extent {
    if exists|i: int| 0 <= i < corners.len() && too_near(#[trigger] corners[i]) {
        whole_screen(w, h)
    } else {
        around(inside_out(w, h), corners)
    }
}

/// The extent of the cube around a sphere. `w` and `h` are the size of the
/// screen.
pub fn cube_extent(corners: &[Corner; 8], w: Binary32, h: Binary32) -> (e: Extent)
    ensures
        e == extent_of(corners@, w, h),
{
    let zero: Binary32 = Binary32 { bits: 0 };
    let mut e: Extent = Extent { x0: w, y0: h, x1: zero, y1: zero };
    let mut i: usize = 0;
    assert(corners@.take(0) =~= seq![]);
    while i < 8
        invariant
            i <= 8,
            zero.bits == 0,
            forall|j: int| 0 <= j < i ==> !too_near(#[trigger] corners@[j]),
            e == around(inside_out(w, h), corners@.take(i as int)),
        decreases 8 - i,
    {
        let c: Corner = corners[i];
        if c.depth.le(Binary32 { bits: NEAR_DEPTH }) {
            assert(too_near(corners@[i as int]));
            return Extent { x0: zero, y0: zero, x1: w, y1: h };
        }
        assert(corners@.take(i + 1).drop_last() =~= corners@.take(i as int));
        if c.px.lt(e.x0) {
            e.x0 = c.px;
        }
        if e.x1.lt(c.px) {
            e.x1 = c.px;
        }
        if c.py.lt(e.y0) {
            e.y0 = c.py;
        }
        if e.y1.lt(c.py) {
            e.y1 = c.py;
        }
        i += 1;
    }
    assert(corners@.take(8) =~= corners@);
    e
}

/// The pixel that a coordinate falls in, kept between zero and `hi`.
pub open spec fn clamped(v: Binary32, hi: int) -> int {
    if v.whole() < hi {
        v.whole()
    } else {
        hi
    }
}

/// The pixel that a coordinate falls in, kept between zero and `hi`.
pub fn clamp_pixel(v: Binary32, hi: usize) -> (r: usize)
    ensures
        r == clamped(v, hi as int),
{
    let whole: usize = v.trunc_u32() as usize;
    if whole < hi {
        whole
    } else {
        hi
    }
}

/// Whether a rectangle is that of an extent on a screen of `w` by `h` pixels.
pub open spec fn rounded(e: Extent, w: int, h: int, r: Rect) -> bool {
    &&& r.x0 == clamped(e.x0, w)
    &&& r.y0 == clamped(e.y0, h)
    &&& r.x1 == clamped(e.x1, w)
    &&& r.y1 == clamped(e.y1, h)
}

/// The pixel rectangle of an extent on a screen of `w` by `h` pixels. The
/// caller has widened the extent by its margin.
pub fn pixel_rect(e: Extent, w: usize, h: usize) -> (r: Rect)
    ensures
        rounded(e, w as int, h as int, r),
        r.x1 <= w,
        r.y1 <= h,
{
    Rect {
        x0: clamp_pixel(e.x0, w),
        y0: clamp_pixel(e.y0, h),
        x1: clamp_pixel(e.x1, w),
        y1: clamp_pixel(e.y1, h),
    }
}

/// Whether a sphere has a circle for a silhouette.
pub open spec fn silhouette_seen(
    depth: Binary32,
    limit: Binary32,
    dist2: Binary32,
    radius2: Binary32,
) -> bool {
    limit.below(depth) && radius2.below(dist2)
}

/// Whether a sphere has a circle for a silhouette: its centre is deeper than
/// `limit`, and the eye is outside it.
pub fn has_silhouette(
    depth: Binary32,
    limit: Binary32,
    dist2: Binary32,
    radius2: Binary32,
) -> (r: bool)
    ensures
        r == silhouette_seen(depth, limit, dist2, radius2),
{
    limit.lt(depth) && radius2.lt(dist2)
}

/// A circle with its centre given in half pixels.
#[derive(Clone, Copy, Debug, PartialEq, Eq, Structural)]
pub struct CoveringDisc {
    pub cx2: usize,
    pub cy2: usize,
    pub r2: usize,
    pub r: usize,
}

/// Whether a circle is the stand-in on a screen of `w` by `h` pixels.
pub open spec fn stands_in(d: CoveringDisc, w: int, h: int) -> bool {
    &&& d.cx2 == w
    &&& d.cy2 == h
    &&& d.r == w
    &&& d.r2 == w * w
}

/// The stand-in for a silhouette that cannot be computed: a circle around the
/// middle of the screen, as wide to each side as the screen is.
pub fn covering_disc(w: usize, h: usize) -> (d: CoveringDisc)
    requires
        w * w <= usize::MAX,
    ensures
        stands_in(d, w as int, h as int),
{
    CoveringDisc { cx2: w, cy2: h, r2: w * w, r: w }
}

/// An extent takes in every corner it was built around, as far as the corner's
/// coordinates are numbers.
pub proof fn law_extent_encloses(start: Extent, corners: Seq<Corner>, i: int)
    requires
        !start.x0.nan() && !start.y0.nan() && !start.x1.nan() && !start.y1.nan(),
        0 <= i < corners.len(),
    ensures
        !corners[i].px.nan() ==> around(start, corners).x0.at_most(corners[i].px)
            && corners[i].px.at_most(around(start, corners).x1),
        !corners[i].py.nan() ==> around(start, corners).y0.at_most(corners[i].py)
            && corners[i].py.at_most(around(start, corners).y1),
{
    lemma_around(start, corners);
}

/// An extent stays a number, grows from where it started, and takes in every
/// corner.
proof fn lemma_around(start: Extent, corners: Seq<Corner>)
    requires
        !start.x0.nan() && !start.y0.nan() && !start.x1.nan() && !start.y1.nan(),
    ensures
        ({
            let e = around(start, corners);
            &&& !e.x0.nan() && !e.y0.nan() && !e.x1.nan() && !e.y1.nan()
            &&& e.x0.at_most(start.x0) && e.y0.at_most(start.y0)
            &&& start.x1.at_most(e.x1) && start.y1.at_most(e.y1)
            &&& forall|j: int|
                0 <= j < corners.len() ==> {
                    &&& !(#[trigger] corners[j]).px.nan() ==> e.x0.at_most(corners[j].px)
                        && corners[j].px.at_most(e.x1)
                    &&& !corners[j].py.nan() ==> e.y0.at_most(corners[j].py)
                        && corners[j].py.at_most(e.y1)
                }
        }),
    decreases corners.len(),
{
    if corners.len() > 0 {
        let fewer = corners.drop_last();
        lemma_around(start, fewer);
        let e = around(start, corners);
        assert forall|j: int| 0 <= j < corners.len() implies {
            &&& !(#[trigger] corners[j]).px.nan() ==> e.x0.at_most(corners[j].px)
                && corners[j].px.at_most(e.x1)
            &&& !corners[j].py.nan() ==> e.y0.at_most(corners[j].py) && corners[j].py.at_most(e.y1)
        } by {
            if j < fewer.len() {
                assert(fewer[j] == corners[j]);
            }
        }
    }
}

/// An extent is no larger than it has to be: each of its limits is where it started
/// or a coordinate of one of the corners.
pub proof fn law_extent_is_tight(start: Extent, corners: Seq<Corner>)
    ensures
        ({
            let e = around(start, corners);
            &&& e.x0 == start.x0 || exists|i: int|
                0 <= i < corners.len() && e.x0 == (#[trigger] corners[i]).px
            &&& e.x1 == start.x1 || exists|i: int|
                0 <= i < corners.len() && e.x1 == (#[trigger] corners[i]).px
            &&& e.y0 == start.y0 || exists|i: int|
                0 <= i < corners.len() && e.y0 == (#[trigger] corners[i]).py
            &&& e.y1 == start.y1 || exists|i: int|
                0 <= i < corners.len() && e.y1 == (#[trigger] corners[i]).py
        }),
    decreases corners.len(),
{
    if corners.len() > 0 {
        let fewer = corners.drop_last();
        law_extent_is_tight(start, fewer);
        let (e, f) = (around(start, corners), around(start, fewer));
        let last = corners[corners.len() - 1];
        if e.x0 != last.px && e.x0 != start.x0 {
            let i = choose|i: int| 0 <= i < fewer.len() && f.x0 == (#[trigger] fewer[i]).px;
            assert(corners[i].px == e.x0);
        }
        if e.x1 != last.px && e.x1 != start.x1 {
            let i = choose|i: int| 0 <= i < fewer.len() && f.x1 == (#[trigger] fewer[i]).px;
            assert(corners[i].px == e.x1);
        }
        if e.y0 != last.py && e.y0 != start.y0 {
            let i = choose|i: int| 0 <= i < fewer.len() && f.y0 == (#[trigger] fewer[i]).py;
            assert(corners[i].py == e.y0);
        }
        if e.y1 != last.py && e.y1 != start.y1 {
            let i = choose|i: int| 0 <= i < fewer.len() && f.y1 == (#[trigger] fewer[i]).py;
            assert(corners[i].py == e.y1);
        }
    }
}

/// The extent of a cube: the whole screen as soon as any corner is no deeper than
/// 0.05, and else from the least to the greatest coordinate of any corner, with the
/// far and the near edge of the screen among them.
pub proof fn law_extent_of_cube(corners: Seq<Corner>, w: Binary32, h: Binary32, i: int)
    requires
        !w.nan() && !h.nan(),
        0 <= i < corners.len(),
    ensures
        ({
            let e = extent_of(corners, w, h);
            let near = Binary32 { bits: 0x3d4c_cccd };
            let screen = e.x0.bits == 0 && e.y0.bits == 0 && e.x1 == w && e.y1 == h;
            &&& corners[i].depth.at_most(near) ==> screen
            &&& (forall|j: int|
                0 <= j < corners.len() ==> !(#[trigger] corners[j]).depth.at_most(near)) ==> {
                &&& !corners[i].px.nan() ==> e.x0.at_most(corners[i].px) && corners[i].px.at_most(e.x1)
                &&& !corners[i].py.nan() ==> e.y0.at_most(corners[i].py) && corners[i].py.at_most(e.y1)
                &&& e.x0.at_most(w) && e.y0.at_most(h) && e.x1.value() >= 0 && e.y1.value() >= 0
                &&& e.x0 == w || exists|k: int|
                    0 <= k < corners.len() && e.x0 == (#[trigger] corners[k]).px
                &&& e.y0 == h || exists|k: int|
                    0 <= k < corners.len() && e.y0 == (#[trigger] corners[k]).py
                &&& e.x1.bits == 0 || exists|k: int|
                    0 <= k < corners.len() && e.x1 == (#[trigger] corners[k]).px
                &&& e.y1.bits == 0 || exists|k: int|
                    0 <= k < corners.len() && e.y1 == (#[trigger] corners[k]).py
            }
        }),
{
    let near = Binary32 { bits: 0x3d4c_cccd };
    let start = inside_out(w, h);
    assert((Binary32 { bits: 0 }).value() == 0);
    if corners[i].depth.at_most(near) {
        assert(too_near(corners[i]));
    }
    if forall|j: int| 0 <= j < corners.len() ==> !(#[trigger] corners[j]).depth.at_most(near) {
        assert(!(exists|j: int| 0 <= j < corners.len() && too_near(#[trigger] corners[j])));
        lemma_around(start, corners);
        law_extent_is_tight(start, corners);
    }
}

/// Rounding to pixels keeps the order of coordinates.
pub proof fn law_clamped_keeps_order(a: Binary32, b: Binary32, hi: int)
    requires
        a.at_most(b),
        0 <= hi,
    ensures
        0 <= clamped(a, hi) <= clamped(b, hi) <= hi,
{
    lemma_pow2_pos(149);
    if a.value() >= 0 {
        lemma_div_is_ordered(a.value(), b.value(), one());
    }
    if b.value() >= 0 {
        lemma_div_is_ordered(0, b.value(), one());
        lemma_fundamental_div_mod_converse(0, one(), 0, 0);
    }
    if a.value() >= 0 {
        lemma_div_is_ordered(0, a.value(), one());
        lemma_fundamental_div_mod_converse(0, one(), 0, 0);
    }
}

/// A rectangle holds the pixel of every on-screen point of its extent, up to
/// the margin on the far side: a point whose pixel lies before that of the far
/// edge.
pub proof fn law_rect_holds_extent(e: Extent, w: int, h: int, x: Binary32, y: Binary32, r: Rect)
    requires
        r.x0 == clamped(e.x0, w) && r.x1 == clamped(e.x1, w),
        r.y0 == clamped(e.y0, h) && r.y1 == clamped(e.y1, h),
        e.x0.at_most(x) && x.whole() < e.x1.whole() && x.whole() < w,
        e.y0.at_most(y) && y.whole() < e.y1.whole() && y.whole() < h,
        0 <= w && 0 <= h,
    ensures
        r.has(x.whole(), y.whole()),
{
    law_clamped_keeps_order(e.x0, x, w);
    law_clamped_keeps_order(e.y0, y, h);
}

/// The stand-in circle covers the screen entirely: the centre of every pixel,
/// at an odd number of half pixels, lies inside it. Squares of distances are in
/// quarters of a square pixel.
pub proof fn law_covering_disc_covers(d: CoveringDisc, w: int, h: int, px: int, py: int)
    requires
        d.cx2 == w && d.cy2 == h && d.r2 == w * w,
        0 <= px < w,
        0 <= py < h,
        h <= w,
    ensures
        (2 * px + 1 - d.cx2) * (2 * px + 1 - d.cx2) + (2 * py + 1 - d.cy2) * (2 * py + 1 - d.cy2)
            < 4 * d.r2,
{
    let dx: int = 2 * px + 1 - w;
    let dy: int = 2 * py + 1 - h;
    assert(dx * dx < w * w) by (nonlinear_arith)
        requires
            -w < dx < w,
    ;
    assert(dy * dy < w * w) by (nonlinear_arith)
        requires
            -w < dy < w,
    ;
    assert(w * w > 0) by (nonlinear_arith)
        requires
            w > 0,
    ;
}

/// The pixel that a coordinate falls in: the first one for what lies before it or
/// is no number, `hi` for what lies at it or beyond, and in between the one whole
/// number that the coordinate has reached while it has not reached the next.
pub proof fn law_clamped_by_cases(v: Binary32, hi: int)
    requires
        0 <= hi <= u32::MAX,
    ensures
        v.nan() || v.value() < 0 ==> clamped(v, hi) == 0,
        !v.nan() && v.value() >= hi * one() && v.value() >= 0 ==> clamped(v, hi) == hi,
        !v.nan() && 0 <= v.value() < hi * one() ==> {
            &&& 0 <= clamped(v, hi) < hi
            &&& clamped(v, hi) * one() <= v.value() < (clamped(v, hi) + 1) * one()
        },
{
    lemma_pow2_pos(149);
    law_whole_part(v);
    let (w, u, x): (int, int, int) = (v.whole(), one(), v.value());
    if !v.nan() && x >= 0 {
        if w < hi {
            assert((w + 1) * u <= hi * u) by (nonlinear_arith)
                requires
                    w + 1 <= hi,
                    u > 0,
            ;
        } else {
            assert(hi * u <= w * u) by (nonlinear_arith)
                requires
                    hi <= w,
                    u > 0,
            ;
            assert(w * u <= x) by {
                if x >= 0x1_0000_0000 * u {
                    assert(w * u <= 0x1_0000_0000 * u) by (nonlinear_arith)
                        requires
                            w <= 0x1_0000_0000,
                            u > 0,
                    ;
                }
            }
        }
    }
}

/// A sphere has a circle for a silhouette exactly if its centre lies deeper than
/// the limit and the eye outside it, all of them numbers.
pub proof fn law_silhouette_by_values(
    depth: Binary32,
    limit: Binary32,
    dist2: Binary32,
    radius2: Binary32,
)
    ensures
        silhouette_seen(depth, limit, dist2, radius2) <==> {
            &&& !depth.nan() && !limit.nan() && !dist2.nan() && !radius2.nan()
            &&& depth.value() > limit.value()
            &&& dist2.value() > radius2.value()
        },
{
}

/// A rectangle holds the pixels between its edges, and none at all exactly if it is
/// empty.
pub proof fn law_rect_by_edges(r: Rect, px: int, py: int)
    ensures
        r.has(px, py) <==> r.x0 <= px && px < r.x1 && r.y0 <= py && py < r.y1,
        r.empty() ==> !r.has(px, py),
        !r.empty() ==> r.has(r.x0 as int, r.y0 as int),
{
}

/// The stand-in circle is round: its centre is the middle of the screen, and the
/// square of its radius is that of the screen's width.
pub proof fn law_stand_in_by_numbers(d: CoveringDisc, w: int, h: int)
    requires
        stands_in(d, w, h),
    ensures
        d.cx2 == w && d.cy2 == h,
        d.r == w && d.r2 == d.r * d.r,
{
}

/// Each edge of a rectangle comes from the same edge of its extent, columns within
/// the width and rows within the height: none for what lies before the screen, the
/// screen's own edge for what lies beyond, and else the pixel reached.
pub proof fn law_rect_by_extent(e: Extent, w: int, h: int, r: Rect)
    requires
        rounded(e, w, h, r),
        0 <= w <= u32::MAX,
        0 <= h <= u32::MAX,
    ensures
        !e.x0.nan() && 0 <= e.x0.value() < w * one() ==> r.x0 * one() <= e.x0.value() < (r.x0 + 1)
            * one(),
        !e.x1.nan() && 0 <= e.x1.value() < w * one() ==> r.x1 * one() <= e.x1.value() < (r.x1 + 1)
            * one(),
        !e.y0.nan() && 0 <= e.y0.value() < h * one() ==> r.y0 * one() <= e.y0.value() < (r.y0 + 1)
            * one(),
        !e.y1.nan() && 0 <= e.y1.value() < h * one() ==> r.y1 * one() <= e.y1.value() < (r.y1 + 1)
            * one(),
        e.x0.nan() || e.x0.value() < 0 ==> r.x0 == 0,
        e.x1.nan() || e.x1.value() < 0 ==> r.x1 == 0,
        e.y0.nan() || e.y0.value() < 0 ==> r.y0 == 0,
        e.y1.nan() || e.y1.value() < 0 ==> r.y1 == 0,
        !e.x0.nan() && e.x0.value() >= w * one() ==> r.x0 == w,
        !e.x1.nan() && e.x1.value() >= w * one() ==> r.x1 == w,
        !e.y0.nan() && e.y0.value() >= h * one() ==> r.y0 == h,
        !e.y1.nan() && e.y1.value() >= h * one() ==> r.y1 == h,
{
    lemma_pow2_pos(149);
    law_clamped_by_cases(e.x0, w);
    law_clamped_by_cases(e.x1, w);
    law_clamped_by_cases(e.y0, h);
    law_clamped_by_cases(e.y1, h);
    assert(w * one() >= 0 && h * one() >= 0) by (nonlinear_arith)
        requires
            w >= 0,
            h >= 0,
            one() > 0,
    ;
}

/// A corner's number is made of its sides: one for right, two for up and four for
/// ahead.
pub proof fn law_corner_by_sides(k: int)
    requires
        0 <= k < 8,
    ensures
        (side(k, 0) + 1) / 2 + 2 * ((side(k, 1) + 1) / 2) + 4 * ((side(k, 2) + 1) / 2) == k,
        side(k, 0) == -1 || side(k, 0) == 1,
        side(k, 1) == -1 || side(k, 1) == 1,
        side(k, 2) == -1 || side(k, 2) == 1,
{
}

} // verus!
