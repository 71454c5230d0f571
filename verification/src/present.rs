//! What the graphics engine is handed to draw a finished frame.

use crate::bounds::Rect;
use crate::checker::{FLOOR_EXTENT, FLOOR_Y, TILE, TILE_WORLD};
use crate::screen::{SCREEN_HEIGHT, SCREEN_WIDTH};
use vstd::prelude::*;

verus! {

/// Colour of the mode bar while the spheres are traced.
pub const BAR_TRACED: u32 = 0xff_f0_c0_40;

/// Colour of the mode bar while the spheres are rasterised.
pub const BAR_RASTER: u32 = 0xff_40_a0_f0;

/// The sky's gradient at the top of the screen in a level view, with gamma
/// applied.
pub const SKY_TOP: u32 = 0xff_d3_a4_87;

/// The sky's gradient at the horizon, with gamma applied.
pub const SKY_HORIZON: u32 = 0xff_b5_8c_73;

/// A corner of a sprite: the pixel of the sprite buffer that it shows, and the
/// place on the screen where it goes.
#[derive(Clone, Copy, Debug, PartialEq, Eq, Structural)]
pub struct SpriteVertex {
    pub u: usize,
    pub v: usize,
    pub x: u16,
    pub y: u16,
}

/// A coloured corner in screen coordinates.
#[derive(Clone, Copy, Debug, PartialEq, Eq, Structural)]
pub struct ColorVertex2D {
    pub color: u32,
    pub x: u16,
    pub y: u16,
}

/// A corner of the floor: texture coordinates and place in the world.
#[derive(Clone, Copy, Debug, PartialEq, Eq, Structural)]
pub struct FloorVertex {
    pub u: i32,
    pub v: i32,
    pub x: i32,
    pub y: i32,
    pub z: i32,
}

/// The rectangles that hold any pixel, in order.
pub open spec fn visible(rects: Seq<Rect>) -> Seq<Rect>
    decreases rects.len(),
{
    if rects.len() == 0 {
        seq![]
    } else if rects.last().empty() {
        visible(rects.drop_last())
    } else {
        visible(rects.drop_last()).push(rects.last())
    }
}

/// The sprite corner at a pixel of the buffer: it goes to the same place on the
/// screen.
pub open spec fn corner_at(px: usize, py: usize) -> SpriteVertex {
    SpriteVertex { u: px, v: py, x: px as u16, y: py as u16 }
}

/// The sprite corners of a number of rectangles, two opposite ones for each.
pub open spec fn corners_of(rects: Seq<Rect>) -> Seq<SpriteVertex>
    decreases rects.len(),
{
    if rects.len() == 0 {
        seq![]
    } else {
        let r = rects.last();
        corners_of(rects.drop_last()).push(corner_at(r.x0, r.y0)).push(corner_at(r.x1, r.y1))
    }
}

/// The sprite corners for a number of rectangles: those of the ones that hold any
/// pixel.
pub open spec fn sprites_of(rects: Seq<Rect>) -> Seq<SpriteVertex> {
    corners_of(visible(rects))
}

/// Up to eight sprite corners: the first `count` entries of `verts`.
#[derive(Clone, Copy, Debug)]
pub struct SpriteList {
    pub verts: [SpriteVertex; 8],
    pub count: usize,
}

impl SpriteList {
    /// A valid count.
    pub open spec fn wf(self) -> bool {
        self.count <= 8
    }

    /// The corners.
    pub open spec fn view(self) -> Seq<SpriteVertex> {
        self.verts@.take(self.count as int)
    }
}

/// Two corners for each rectangle, and no more rectangles than there were.
pub proof fn lemma_corners(rects: Seq<Rect>)
    ensures
        corners_of(rects).len() == 2 * rects.len(),
        visible(rects).len() <= rects.len(),
    decreases rects.len(),
{
    if rects.len() > 0 {
        lemma_corners(rects.drop_last());
    }
}

/// The sprites of a traced frame: one for each rectangle that holds any pixel.
pub fn sprite_vertices(rects: &[Rect; 4]) -> (r: SpriteList)
    ensures
        r.wf(),
        r@ == sprites_of(rects@),
{
    let mut verts: [SpriteVertex; 8] = [SpriteVertex { u: 0, v: 0, x: 0, y: 0 };8];
    let mut count: usize = 0;
    let mut i: usize = 0;
    assert(verts@.take(0) =~= corners_of(visible(rects@.take(0))));
    while i < 4
        invariant
            i <= 4,
            count <= 2 * i,
            verts@.take(count as int) == corners_of(visible(rects@.take(i as int))),
        decreases 4 - i,
    {
        let r: Rect = rects[i];
        let ghost shown = visible(rects@.take(i as int));
        assert(rects@.take(i + 1).drop_last() =~= rects@.take(i as int));
        if !r.is_empty() {
            let ghost before = verts@;
            verts[count] = SpriteVertex { u: r.x0, v: r.y0, x: r.x0 as u16, y: r.y0 as u16 };
            verts[count + 1] = SpriteVertex { u: r.x1, v: r.y1, x: r.x1 as u16, y: r.y1 as u16 };
            count += 2;
            assert(verts@.take(count as int) =~= before.take(count - 2).push(
                corner_at(r.x0, r.y0),
            ).push(corner_at(r.x1, r.y1)));
            assert(shown.push(r).drop_last() =~= shown);
        }
        i += 1;
    }
    assert(rects@.take(4) =~= rects@);
    SpriteList { verts, count }
}

/// How the spheres get onto the screen.
#[derive(Clone, Copy, Debug, PartialEq, Eq, Structural)]
pub enum Layer {
    /// As triangles; nothing was traced.
    Mesh,
    /// As sprites with this many corners, cut out of the sprite buffer.
    Sprites(usize),
    /// Not at all: no sphere is in view.
    Nothing,
}

/// What goes over the background, which is always drawn first.
#[derive(Clone, Copy, Debug, PartialEq, Eq, Structural)]
pub struct Presentation {
    /// The spheres, drawn over the background.
    pub layer: Layer,
    /// The colour of the mode bar, drawn last.
    pub bar: u32,
}

/// What a frame is made of: `count` is the number of sprite corners.
pub open spec fn presented(traced: bool, count: usize) -> Presentation {
    Presentation {
        bar: if traced {
            BAR_TRACED
        } else {
            BAR_RASTER
        },
        layer: if !traced {
            Layer::Mesh
        } else if count == 0 {
            Layer::Nothing
        } else {
            Layer::Sprites(count)
        },
    }
}

/// What a frame is made of: `count` is the number of sprite corners.
pub fn present(traced: bool, count: usize) -> (p: Presentation)
    ensures
        p == presented(traced, count),
{
    if !traced {
        return Presentation { layer: Layer::Mesh, bar: BAR_RASTER };
    }
    if count == 0 {
        return Presentation { layer: Layer::Nothing, bar: BAR_TRACED };
    }
    Presentation { layer: Layer::Sprites(count), bar: BAR_TRACED }
}

/// Two opposite corners of the bar.
pub open spec fn bar_corners(color: u32) -> Seq<ColorVertex2D> {
    seq![ColorVertex2D { color, x: 10, y: 10 }, ColorVertex2D { color, x: 118, y: 24 }]
}

/// The bar in the corner that says which renderer is running, as two opposite
/// corners.
pub fn mode_bar(color: u32) -> (r: [ColorVertex2D; 2])
    ensures
        r@ == bar_corners(color),
{
    let r: [ColorVertex2D; 2] = [
        ColorVertex2D { color, x: 10, y: 10 },
        ColorVertex2D { color, x: 118, y: 24 },
    ];
    assert(r@ =~= bar_corners(color));
    r
}

/// Which corner of a rectangle a vertex of its two triangles is, as steps to
/// the far side in each direction.
pub open spec fn quad_side(k: int) -> (int, int) {
    if k == 0 || k == 3 {
        (0, 0)
    } else if k == 1 {
        (0, 1)
    } else if k == 2 || k == 4 {
        (1, 1)
    } else {
        (1, 0)
    }
}

/// Whether a vertex of the sky is where it should be: in a corner of the
/// screen, with the gradient's colour for that height.
pub open spec fn sky_vertex(k: int, p: ColorVertex2D) -> bool {
    &&& p.x == quad_side(k).0 * SCREEN_WIDTH
    &&& p.y == quad_side(k).1 * SCREEN_HEIGHT
    &&& p.color == if p.y == 0 {
        SKY_TOP
    } else {
        SKY_HORIZON
    }
}

/// Whether all vertices of the sky are where they should be.
pub open spec fn sky_placed(q: Seq<ColorVertex2D>) -> bool {
    forall|k: int| 0 <= k < 6 ==> sky_vertex(k, #[trigger] q[k])
}

/// The sky: two triangles over the whole screen.
pub fn sky_quad() -> (r: [ColorVertex2D; 6])
    ensures
        sky_placed(r@),
{
    let top_left: ColorVertex2D = ColorVertex2D { color: SKY_TOP, x: 0, y: 0 };
    let bottom_left: ColorVertex2D = ColorVertex2D {
        color: SKY_HORIZON,
        x: 0,
        y: SCREEN_HEIGHT as u16,
    };
    let bottom_right: ColorVertex2D = ColorVertex2D {
        color: SKY_HORIZON,
        x: SCREEN_WIDTH as u16,
        y: SCREEN_HEIGHT as u16,
    };
    let top_right: ColorVertex2D = ColorVertex2D {
        color: SKY_TOP,
        x: SCREEN_WIDTH as u16,
        y: 0,
    };
    [top_left, bottom_left, bottom_right, top_left, bottom_right, top_right]
}

/// Whether a vertex of the floor is where it should be: in a corner of the
/// plane, with the texture coordinates of that place.
pub open spec fn floor_vertex(k: int, p: FloorVertex) -> bool {
    &&& p.x == (2 * quad_side(k).0 - 1) * FLOOR_EXTENT
    &&& p.z == (2 * quad_side(k).1 - 1) * FLOOR_EXTENT
    &&& p.y == FLOOR_Y
    &&& p.u * TILE_WORLD == p.x
    &&& p.v * TILE_WORLD == p.z
}

/// Whether all vertices of the floor are where they should be.
pub open spec fn floor_placed(q: Seq<FloorVertex>) -> bool {
    forall|k: int| 0 <= k < 6 ==> floor_vertex(k, #[trigger] q[k])
}

/// The floor: two triangles over one enormous square, tiled by wrapping the
/// texture.
pub fn floor_quad() -> (r: [FloorVertex; 6])
    ensures
        floor_placed(r@),
{
    let e: i32 = FLOOR_EXTENT;
    let t: i32 = FLOOR_EXTENT / TILE_WORLD;
    let a: FloorVertex = FloorVertex { u: -t, v: -t, x: -e, y: FLOOR_Y, z: -e };
    let b: FloorVertex = FloorVertex { u: -t, v: t, x: -e, y: FLOOR_Y, z: e };
    let c: FloorVertex = FloorVertex { u: t, v: t, x: e, y: FLOOR_Y, z: e };
    let d: FloorVertex = FloorVertex { u: t, v: -t, x: e, y: FLOOR_Y, z: -e };
    [a, b, c, a, c, d]
}

/// The floor's texture is in scale: at every corner, the texture coordinates
/// count as many texels as there are eighths of a world unit to that place, so
/// texels fall where the parity of the squares wants them.
pub proof fn law_floor_texture_in_scale(k: int, p: FloorVertex)
    requires
        floor_vertex(k, p),
    ensures
        p.u * TILE == 8 * p.x,
        p.v * TILE == 8 * p.z,
{
}

/// A sprite shows each pixel of the buffer at its own place on the screen.
pub proof fn law_sprites_stay_in_place(px: usize, py: usize)
    requires
        px <= u16::MAX,
        py <= u16::MAX,
    ensures
        corner_at(px, py).x == corner_at(px, py).u,
        corner_at(px, py).y == corner_at(px, py).v,
{
}

/// The visible rectangles hold exactly the pixels that all of them hold.
pub proof fn law_visible_loses_no_pixel(rects: Seq<Rect>, px: int, py: int)
    ensures
        (exists|i: int| 0 <= i < rects.len() && #[trigger] rects[i].has(px, py)) <==> (exists|
            i: int,
        |
            0 <= i < visible(rects).len() && #[trigger] visible(rects)[i].has(px, py)),
    decreases rects.len(),
{
    if rects.len() > 0 {
        let fewer = rects.drop_last();
        law_visible_loses_no_pixel(fewer, px, py);
        if exists|i: int| 0 <= i < rects.len() && #[trigger] rects[i].has(px, py) {
            let i = choose|i: int| 0 <= i < rects.len() && #[trigger] rects[i].has(px, py);
            if i < fewer.len() {
                assert(fewer[i].has(px, py));
                let j = choose|j: int|
                    0 <= j < visible(fewer).len() && #[trigger] visible(fewer)[j].has(px, py);
                assert(visible(rects)[j].has(px, py));
            } else {
                assert(visible(rects)[visible(rects).len() - 1].has(px, py));
            }
        }
        if exists|i: int| 0 <= i < visible(rects).len() && #[trigger] visible(rects)[i].has(px, py) {
            let i = choose|i: int|
                0 <= i < visible(rects).len() && #[trigger] visible(rects)[i].has(px, py);
            if i < visible(fewer).len() {
                assert(visible(fewer)[i].has(px, py));
                let j = choose|j: int| 0 <= j < fewer.len() && #[trigger] fewer[j].has(px, py);
                assert(rects[j].has(px, py));
            } else {
                assert(rects[rects.len() - 1].has(px, py));
            }
        }
    }
}

/// The bar tells the renderers apart, the mesh is drawn by the rasteriser alone, and
/// sprites exactly if there are any corners, all of them.
pub proof fn law_presentation_by_cases(traced: bool, count: usize)
    ensures
        presented(true, count).bar == 0xfff0_c040u32,
        presented(false, count).bar == 0xff40_a0f0u32,
        presented(traced, count).layer == Layer::Mesh <==> !traced,
        presented(traced, count).layer == Layer::Sprites(count) <==> traced && count != 0,
        presented(traced, count).layer == Layer::Nothing <==> traced && count == 0,
{
}

/// A sprite corner lies at its pixel, in the buffer and on the screen.
pub proof fn law_corner_is_at_its_pixel(px: usize, py: usize)
    requires
        px <= 0xffff,
        py <= 0xffff,
    ensures
        corner_at(px, py).u == px && corner_at(px, py).v == py,
        corner_at(px, py).x == px && corner_at(px, py).y == py,
{
}

/// The corners of a list of rectangles, two for each and in order: the near one and
/// the far one.
pub proof fn law_corners_in_pairs(rects: Seq<Rect>, i: int)
    requires
        0 <= i < rects.len(),
    ensures
        corners_of(rects).len() == 2 * rects.len(),
        corners_of(rects)[2 * i] == corner_at(rects[i].x0, rects[i].y0),
        corners_of(rects)[2 * i + 1] == corner_at(rects[i].x1, rects[i].y1),
    decreases rects.len(),
{
    lemma_corners(rects);
    lemma_corners(rects.drop_last());
    if i < rects.len() - 1 {
        law_corners_in_pairs(rects.drop_last(), i);
    }
}

/// The visible rectangles of two lists one after the other are those of the two, and
/// of a single one it is that one unless it holds no pixel: so they are all there, in
/// order, and no other.
pub proof fn law_visible_in_order(a: Seq<Rect>, b: Seq<Rect>)
    ensures
        visible(a + b) == visible(a) + visible(b),
        a.len() == 1 ==> visible(a) == (if a[0].x1 <= a[0].x0 || a[0].y1 <= a[0].y0 {
            seq![]
        } else {
            seq![a[0]]
        }),
    decreases b.len(),
{
    if b.len() == 0 {
        assert(a + b =~= a);
        assert(visible(a) + visible(b) =~= visible(a));
    } else {
        law_visible_in_order(a, b.drop_last());
        assert((a + b).drop_last() =~= a + b.drop_last());
        assert((a + b).last() == b.last());
        if !b.last().empty() {
            assert(visible(a) + visible(b) =~= (visible(a) + visible(b.drop_last())).push(b.last()));
        }
    }
    if a.len() == 1 {
        assert(a.drop_last() =~= seq![]);
        assert(visible(a.drop_last()) =~= seq![]);
        if !a[0].empty() {
            assert(visible(a) =~= seq![a[0]]);
        }
    }
}

/// A list of sprites holds as many corners as are counted, from the first on.
pub proof fn law_sprite_list_by_entries(l: SpriteList, i: int)
    requires
        l.wf(),
        0 <= i < l.count,
    ensures
        l.count <= 8,
        l@.len() == l.count,
        l@[i] == l.verts@[i],
{
}

/// The vertices of the sky: the corners of the screen of 480 by 272, with the upper
/// colour above and the lower one below, in two triangles that share the edge from
/// the first corner to the opposite one.
pub proof fn law_sky_by_corners(q: Seq<ColorVertex2D>, k: int, p: ColorVertex2D)
    requires
        0 <= k < 6,
        sky_placed(q),
        p == q[k],
    ensures
        p.x == (if k == 2 || k == 4 || k == 5 {
            480int
        } else {
            0
        }),
        p.y == (if k == 1 || k == 2 || k == 4 {
            272int
        } else {
            0
        }),
        p.color == (if p.y == 0 {
            0xffd3_a487u32
        } else {
            0xffb5_8c73u32
        }),
{
}

/// The vertices of the floor: the corners of a square of 800 around the origin one
/// below, in two triangles of the same kind, with half as many repeats of the texture
/// as units to each corner.
pub proof fn law_floor_by_corners(q: Seq<FloorVertex>, k: int, p: FloorVertex)
    requires
        0 <= k < 6,
        floor_placed(q),
        p == q[k],
    ensures
        p.x == (if k == 2 || k == 4 || k == 5 {
            400int
        } else {
            -400
        }),
        p.z == (if k == 1 || k == 2 || k == 4 {
            400int
        } else {
            -400
        }),
        p.y == -1,
        2 * p.u == p.x && 2 * p.v == p.z,
{
}

/// The bar has the colour it is given at both corners, and lies at the same place
/// whatever its colour.
pub proof fn law_bar_keeps_its_place(a: u32, b: u32, k: int)
    requires
        0 <= k < 2,
    ensures
        bar_corners(a).len() == 2,
        bar_corners(a)[k].color == a,
        bar_corners(a)[k].x == bar_corners(b)[k].x && bar_corners(a)[k].y == bar_corners(b)[k].y,
        bar_corners(a)[0].x == 10 && bar_corners(a)[0].y == 10,
        bar_corners(a)[1].x == 118 && bar_corners(a)[1].y == 24,
{
}

/// The sprites of rectangles one after the other are those of each in turn: none for
/// one without a pixel, and else its near corner and its far one, each at the same
/// place in the buffer and on the screen.
pub proof fn law_sprites_by_rectangles(a: Seq<Rect>, b: Seq<Rect>, r: Rect)
    requires
        r.x0 <= 0xffff && r.y0 <= 0xffff && r.x1 <= 0xffff && r.y1 <= 0xffff,
    ensures
        sprites_of(a + b) == sprites_of(a) + sprites_of(b),
        r.x1 <= r.x0 || r.y1 <= r.y0 ==> sprites_of(seq![r]) == Seq::<SpriteVertex>::empty(),
        r.x0 < r.x1 && r.y0 < r.y1 ==> {
            let s = sprites_of(seq![r]);
            &&& s.len() == 2
            &&& s[0].u == r.x0 && s[0].v == r.y0 && s[0].x == r.x0 && s[0].y == r.y0
            &&& s[1].u == r.x1 && s[1].v == r.y1 && s[1].x == r.x1 && s[1].y == r.y1
        },
{
    law_visible_in_order(a, b);
    lemma_corners_of_both(visible(a), visible(b));
    law_visible_in_order(seq![r], seq![]);
    if r.x0 < r.x1 && r.y0 < r.y1 {
        law_corners_in_pairs(seq![r], 0);
    }
}

/// The corners of two lists one after the other are those of the two.
proof fn lemma_corners_of_both(a: Seq<Rect>, b: Seq<Rect>)
    ensures
        corners_of(a + b) == corners_of(a) + corners_of(b),
    decreases b.len(),
{
    if b.len() == 0 {
        assert(a + b =~= a);
        assert(corners_of(a) + corners_of(b) =~= corners_of(a));
    } else {
        lemma_corners_of_both(a, b.drop_last());
        assert((a + b).drop_last() =~= a + b.drop_last());
        assert(corners_of(a + b) =~= corners_of(a) + corners_of(b));
    }
}

} // verus!
