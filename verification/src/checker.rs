//! The checkerboard floor, twice: as the tracer shades it, and as the texture
//! the graphics engine draws it with. The two have to line up.

use crate::binary32::{law_floored_part, one, Binary32};
use vstd::arithmetic::power2::lemma_pow2_pos;
use vstd::prelude::*;

verus! {

/// The floor's light colour, lighting and gamma included.
pub const TEXEL_LIGHT: u32 = 0xff_da_da_da;

/// The floor's dark colour, lighting and gamma included.
pub const TEXEL_DARK: u32 = 0xff_56_52_4e;

/// Texels along one side of the floor texture.
pub const TILE: usize = 16;

/// World units that one repeat of the floor texture covers, so that it holds a
/// block of two by two squares.
pub const TILE_WORLD: i32 = 2;

/// How far the floor reaches. Beyond this there is only sky.
pub const FLOOR_EXTENT: i32 = 400;

/// Height of the floor; everything else floats above it.
pub const FLOOR_Y: i32 = -1;

/// Whether a square of the floor is a light one: the parity of its two whole
/// coordinates.
pub open spec fn light_square(cx: int, cz: int) -> bool {
    (cx + cz) % 2 == 0
}

/// Whether the floor is light at a point, given its two coordinates: the
/// parity of the two floored coordinates.
pub fn floor_is_light(x: Binary32, z: Binary32) -> (r: bool)
    ensures
        r == light_square(x.floored(), z.floored()),
{
    let cx: i32 = x.floor_i32();
    let cz: i32 = z.floor_i32();
    (cx as i64 + cz as i64) % 2 == 0
}

/// The colour of one texel of the floor texture.
pub open spec fn texel(x: int, y: int) -> u32 {
    if (x < 8) == (y < 8) {
        TEXEL_LIGHT
    } else {
        TEXEL_DARK
    }
}

/// Whether a texture is that of the floor, row by row.
pub open spec fn tiled(t: Seq<u32>) -> bool {
    forall|x: int, y: int|
        0 <= x < TILE && 0 <= y < TILE ==> #[trigger] t[y * TILE + x] == texel(x, y)
}

/// The floor texture: two by two squares, light where both halves agree.
pub fn checker_tile() -> (t: [u32; 256])
    ensures
        tiled(t@),
{
    let mut t: [u32; 256] = [0u32;256];
    let mut i: usize = 0;
    while i < 256
        invariant
            i <= 256,
            forall|j: int| 0 <= j < i ==> #[trigger] t@[j] == texel(j % 16, j / 16),
        decreases 256 - i,
    {
        let x: usize = i % 16;
        let y: usize = i / 16;
        t[i] = if (x < 8) == (y < 8) {
            TEXEL_LIGHT
        } else {
            TEXEL_DARK
        };
        i += 1;
    }
    t
}

/// The texel that a floor position falls on, for a position given in eighths
/// of a world unit: one repeat of sixteen texels covers two units, so a texel
/// is an eighth wide.
pub open spec fn texel_at(eighths: int) -> int {
    eighths % (TILE as int)
}

/// The texture lines up with the traced floor: everywhere on the plane the
/// texel is light exactly where the traced square is.
pub proof fn law_texture_lines_up(x8: int, z8: int)
    ensures
        0 <= texel_at(x8) < TILE,
        0 <= texel_at(z8) < TILE,
        texel(texel_at(x8), texel_at(z8)) == TEXEL_LIGHT <==> light_square(x8 / 8, z8 / 8),
{
    lemma_half_of_tile(x8);
    lemma_half_of_tile(z8);
    assert((x8 / 8 + z8 / 8) % 2 == 0 <==> (x8 / 8) % 2 == (z8 / 8) % 2);
}

/// A position falls in the first half of the texture exactly if its square has
/// an even coordinate.
proof fn lemma_half_of_tile(eighths: int)
    ensures
        0 <= texel_at(eighths) < TILE,
        texel_at(eighths) < 8 <==> (eighths / 8) % 2 == 0,
{
    let q: int = eighths / 16;
    let r: int = eighths % 16;
    assert(eighths == 16 * q + r);
    if r < 8 {
        assert(eighths / 8 == 2 * q);
    } else {
        assert(eighths / 8 == 2 * q + 1);
    }
}

/// Neighbouring squares have different colours, in both directions.
pub proof fn law_squares_alternate(cx: int, cz: int)
    ensures
        light_square(cx + 1, cz) != light_square(cx, cz),
        light_square(cx, cz + 1) != light_square(cx, cz),
{
}

/// The square at the origin is a light one. With neighbours of different colours
/// this settles every square.
pub proof fn law_origin_is_light()
    ensures
        light_square(0, 0),
{
}

/// Going two squares on, or one in each direction, comes to a square of the same
/// colour.
pub proof fn law_squares_repeat(cx: int, cz: int)
    ensures
        light_square(cx + 2, cz) == light_square(cx, cz),
        light_square(cx, cz + 2) == light_square(cx, cz),
        light_square(cx + 1, cz + 1) == light_square(cx, cz),
        light_square(cx, cz) <==> exists|k: int| cx + cz == #[trigger] (k * 2),
{
    if light_square(cx, cz) {
        let k: int = (cx + cz) / 2;
        assert(cx + cz == k * 2);
    }
}

/// The floor is light at a point exactly if the squares that it is away from the
/// origin, each counted downwards, are even in number.
pub proof fn law_floor_by_coordinates(x: Binary32, z: Binary32, cx: int, cz: int)
    requires
        !x.nan() && !z.nan(),
        -0x8000_0000 <= cx < 0x8000_0000,
        -0x8000_0000 <= cz < 0x8000_0000,
        cx * one() <= x.value() < (cx + 1) * one(),
        cz * one() <= z.value() < (cz + 1) * one(),
    ensures
        light_square(x.floored(), z.floored()) <==> (cx + cz) % 2 == 0,
{
    lemma_floored_is(x, cx);
    lemma_floored_is(z, cz);
}

/// A number between a whole number and the next is floored to the first.
proof fn lemma_floored_is(x: Binary32, c: int)
    requires
        !x.nan(),
        -0x8000_0000 <= c < 0x8000_0000,
        c * one() <= x.value() < (c + 1) * one(),
    ensures
        x.floored() == c,
{
    lemma_pow2_pos(149);
    law_floored_part(x);
    let (u, f, v): (int, int, int) = (one(), x.floored(), x.value());
    assert(-0x8000_0000 * u <= c * u && (c + 1) * u <= 0x8000_0000 * u) by (nonlinear_arith)
        requires
            -0x8000_0000 <= c,
            c + 1 <= 0x8000_0000,
            u > 0,
    ;
    assert(f == c) by (nonlinear_arith)
        requires
            f * u <= v < (f + 1) * u,
            c * u <= v < (c + 1) * u,
            u > 0,
    ;
}

/// The texture, texel by texel: light exactly where both halves agree, and of one
/// of the two colours of the floor.
pub proof fn law_texel_by_halves(x: int, y: int)
    requires
        0 <= x < 16,
        0 <= y < 16,
    ensures
        texel(x, y) == (if x / 8 == y / 8 {
            0xffda_dadau32
        } else {
            0xff56_524eu32
        }),
{
}

/// The texture as a whole: the texel at every place of its 16 rows of 16 is light
/// exactly where the row and the column are in the same half.
pub proof fn law_tile_by_places(t: Seq<u32>, x: int, y: int)
    requires
        tiled(t),
        0 <= x < 16,
        0 <= y < 16,
    ensures
        t[y * 16 + x] == (if x / 8 == y / 8 {
            0xffda_dadau32
        } else {
            0xff56_524eu32
        }),
{
    assert(t[y * TILE + x] == texel(x, y));
}

} // verus!
