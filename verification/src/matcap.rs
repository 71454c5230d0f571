//! The second renderer's textures.
//!
//! A matcap is a square texture of a sphere seen head on: each texel stands for
//! one surface normal that the sphere can present to the camera, and holds the
//! colour that the ray tracer found for it. The graphics engine then draws
//! triangles and looks the answer up.

use crate::pixel::{law_pixel_of_found, opaque, pack, packed, Rgb};
use crate::screen::SPHERES;
use vstd::prelude::*;

verus! {

/// Texels along one side of a matcap.
pub const MATCAP: usize = 64;

/// A surface normal as seen by the camera: how far it points right and up, in
/// 64ths, and the square of how far it leans away, in 4096ths.
#[derive(Clone, Copy, Debug, PartialEq, Eq, Structural)]
pub struct Normal {
    pub nx: i32,
    pub ny: i32,
    pub r2: i32,
}

/// How far the normal of a column of texels points right, in 64ths: the centre
/// of the texel, on a scale from -1 at the left edge to 1 at the right.
pub open spec fn right_of(tx: int) -> int {
    2 * tx + 1 - MATCAP
}

/// How far the normal of a row of texels points up, in 64ths.
pub open spec fn up_of(ty: int) -> int {
    MATCAP - (2 * ty + 1)
}

/// The square of how far the normal of a texel leans away, in 4096ths.
pub open spec fn lean(tx: int, ty: int) -> int {
    right_of(tx) * right_of(tx) + up_of(ty) * up_of(ty)
}

/// Whether a texel stands for a normal at all: its centre lies inside the
/// disc that a sphere fills.
pub open spec fn on_sphere(tx: int, ty: int) -> bool {
    lean(tx, ty) < MATCAP * MATCAP
}

/// The normal that a texel stands for.
pub open spec fn normal_of(tx: int, ty: int) -> Normal {
    Normal { nx: right_of(tx) as i32, ny: up_of(ty) as i32, r2: lean(tx, ty) as i32 }
}

/// The normal that a texel stands for; none outside the disc.
pub fn texel_normal(tx: usize, ty: usize) -> (r: Option<Normal>)
    requires
        tx < MATCAP,
        ty < MATCAP,
    ensures
        match r {
            Some(n) => {
                &&& on_sphere(tx as int, ty as int)
                &&& n == normal_of(tx as int, ty as int)
                &&& n.nx == right_of(tx as int)
                &&& n.ny == up_of(ty as int)
                &&& n.r2 == lean(tx as int, ty as int)
            },
            None => !on_sphere(tx as int, ty as int),
        },
{
    let nx: i32 = 2 * tx as i32 + 1 - 64;
    let ny: i32 = 64 - (2 * ty as i32 + 1);
    assert(0 <= nx * nx <= 3969) by (nonlinear_arith)
        requires
            -63 <= nx <= 63,
    ;
    assert(0 <= ny * ny <= 3969) by (nonlinear_arith)
        requires
            -63 <= ny <= 63,
    ;
    let r2: i32 = nx * nx + ny * ny;
    if r2 >= 4096 {
        None
    } else {
        Some(Normal { nx, ny, r2 })
    }
}

/// What a baked texel holds: transparent outside the disc, and inside it the
/// packed colour that was found for its normal.
pub open spec fn texel_baked<F: Fn(Normal) -> Rgb>(
    shade: F,
    tx: int,
    ty: int,
    texel: u32,
) -> bool {
    if on_sphere(tx, ty) {
        exists|c: Rgb|
            {
                &&& #[trigger] call_ensures(shade, (normal_of(tx, ty),), c)
                &&& texel == packed(c)
            }
    } else {
        texel == 0
    }
}

/// Whether a whole texture is baked, row by row.
pub open spec fn baked<F: Fn(Normal) -> Rgb>(shade: F, tex: Seq<u32>) -> bool {
    forall|tx: int, ty: int|
        0 <= tx < MATCAP && 0 <= ty < MATCAP ==> texel_baked(
            shade,
            tx,
            ty,
            #[trigger] tex[ty * MATCAP + tx],
        )
}

/// Fills one texture by shading the sphere from every direction it can face.
pub fn bake_matcap<F: Fn(Normal) -> Rgb>(tex: &mut [u32], shade: &F)
    requires
        old(tex)@.len() == MATCAP * MATCAP,
        forall|tx: int, ty: int|
            0 <= tx < MATCAP && 0 <= ty < MATCAP && on_sphere(tx, ty) ==> call_requires(
                *shade,
                (#[trigger] normal_of(tx, ty),),
            ),
    ensures
        final(tex)@.len() == old(tex)@.len(),
        baked(*shade, final(tex)@),
{
    let mut ty: usize = 0;
    while ty < MATCAP
        invariant
            ty <= MATCAP,
            tex@.len() == MATCAP * MATCAP,
            forall|qx: int, qy: int|
                0 <= qx < MATCAP && 0 <= qy < MATCAP && on_sphere(qx, qy) ==> call_requires(
                    *shade,
                    (#[trigger] normal_of(qx, qy),),
                ),
            forall|i: int|
                0 <= i < ty * MATCAP ==> texel_baked(*shade, i % 64, i / 64, #[trigger] tex@[i]),
        decreases MATCAP - ty,
    {
        let mut tx: usize = 0;
        while tx < MATCAP
            invariant
                ty < MATCAP,
                tx <= MATCAP,
                tex@.len() == MATCAP * MATCAP,
                forall|qx: int, qy: int|
                    0 <= qx < MATCAP && 0 <= qy < MATCAP && on_sphere(qx, qy) ==> call_requires(
                        *shade,
                        (#[trigger] normal_of(qx, qy),),
                    ),
                forall|i: int|
                    0 <= i < ty * MATCAP + tx ==> texel_baked(
                        *shade,
                        i % 64,
                        i / 64,
                        #[trigger] tex@[i],
                    ),
            decreases MATCAP - tx,
        {
            let at: usize = ty * MATCAP + tx;
            assert(at % 64 == tx && at / 64 == ty);
            let texel: u32 = match texel_normal(tx, ty) {
                Some(n) => {
                    let c: Rgb = shade(n);
                    pack(c)
                },
                None => 0,
            };
            assert(texel_baked(*shade, tx as int, ty as int, texel));
            tex[at] = texel;
            tx += 1;
        }
        ty += 1;
    }
    assert forall|tx: int, ty: int| 0 <= tx < MATCAP && 0 <= ty < MATCAP implies texel_baked(
        *shade,
        tx,
        ty,
        #[trigger] tex@[ty * MATCAP + tx],
    ) by {
        let i: int = ty * MATCAP + tx;
        assert(i % 64 == tx && i / 64 == ty);
        assert(texel_baked(*shade, i % 64, i / 64, tex@[i]));
    }
}

/// The sphere whose texture is refreshed in a frame.
pub open spec fn refreshed(frame: int) -> int {
    frame % SPHERES as int
}

/// The sphere whose texture is refreshed in a frame: one per frame keeps the
/// reflections following the camera without the cost ever landing in one place.
pub fn matcap_of_frame(frame: u32) -> (r: usize)
    ensures
        r == refreshed(frame as int),
{
    (frame % 4) as usize
}

/// Every sphere's texture is refreshed in any four frames in a row, and in
/// only one of them.
pub proof fn law_refresh_goes_round(first: int, sphere: int) -> (offset: int)
    requires
        0 <= first,
        0 <= sphere < SPHERES,
    ensures
        0 <= offset < SPHERES,
        forall|k: int|
            0 <= k < SPHERES ==> (#[trigger] refreshed(first + k) == sphere <==> k == offset),
{
    (sphere - first % 4 + 4) % 4
}

/// A normal points at its own texel: looking a normal up at half a texture's
/// width times one plus how far it points right, and half a texture's height
/// times one minus how far it points up, lands in the middle of the texel that
/// stands for it. Positions are in half texels, where the middle of texel `t`
/// is at `2 * t + 1`.
pub proof fn law_lookup_finds_texel(tx: int, ty: int)
    ensures
        right_of(tx) + MATCAP == 2 * tx + 1,
        MATCAP - up_of(ty) == 2 * ty + 1,
{
}

/// The disc is symmetric: a texel and its mirror images stand for normals
/// that lean equally far, so either all of them are inside or none is.
pub proof fn law_disc_is_symmetric(tx: int, ty: int)
    ensures
        lean(MATCAP - 1 - tx, ty) == lean(tx, ty),
        lean(tx, MATCAP - 1 - ty) == lean(tx, ty),
        lean(ty, tx) == lean(tx, ty),
{
    let (a, b): (int, int) = (right_of(tx), up_of(ty));
    assert((-a) * (-a) == a * a) by (nonlinear_arith);
    assert((-b) * (-b) == b * b) by (nonlinear_arith);
    assert(right_of(MATCAP - 1 - tx) == -a);
    assert(up_of(MATCAP - 1 - ty) == -b);
    assert(right_of(ty) == -b);
    assert(up_of(tx) == -a);
}

/// A baked texel is opaque inside the disc and transparent outside it.
pub proof fn law_texel_opaque_or_clear<F: Fn(Normal) -> Rgb>(
    shade: F,
    tx: int,
    ty: int,
    texel: u32,
)
    requires
        texel_baked(shade, tx, ty, texel),
    ensures
        on_sphere(tx, ty) ==> opaque(texel),
        !on_sphere(tx, ty) ==> texel == 0,
{
}

/// The spheres are refreshed one after the other from the first on, and over again.
pub proof fn law_refresh_in_order(frame: int)
    requires
        0 <= frame,
    ensures
        refreshed(0) == 0,
        refreshed(frame + 1) == (if refreshed(frame) == 3 {
            0
        } else {
            refreshed(frame) + 1
        }),
        0 <= refreshed(frame) < 4,
{
}

/// The normal of a texel, in 64ths from the middle of the texture to the middle of
/// the texel: rightwards with the columns and upwards against the rows. It stands
/// for a normal at all if the two make up less than a unit.
pub proof fn law_normal_of_texel(tx: int, ty: int)
    requires
        0 <= tx < 64,
        0 <= ty < 64,
    ensures
        ({
            let (x, y) = (2 * tx + 1 - 64, 64 - 2 * ty - 1);
            &&& normal_of(tx, ty).nx == x
            &&& normal_of(tx, ty).ny == y
            &&& normal_of(tx, ty).r2 == x * x + y * y
            &&& on_sphere(tx, ty) <==> x * x + y * y < 64 * 64
        }),
{
    let (x, y): (int, int) = (2 * tx + 1 - 64, 64 - 2 * ty - 1);
    assert(0 <= x * x <= 3969) by (nonlinear_arith)
        requires
            -63 <= x <= 63,
    ;
    assert(0 <= y * y <= 3969) by (nonlinear_arith)
        requires
            -63 <= y <= 63,
    ;
}

/// A baked texel, byte by byte: inside the disc it holds a colour that was found for
/// the normal from the middle of the texture to the middle of that very texel, packed
/// with red lowest, and outside it nothing.
pub proof fn law_texel_shows_its_normal<F: Fn(Normal) -> Rgb>(
    shade: F,
    tx: int,
    ty: int,
    texel: u32,
)
    requires
        texel_baked(shade, tx, ty, texel),
        0 <= tx < 64,
        0 <= ty < 64,
    ensures
        ({
            let (x, y) = (2 * tx + 1 - 64, 64 - 2 * ty - 1);
            let n = Normal { nx: x as i32, ny: y as i32, r2: (x * x + y * y) as i32 };
            &&& x * x + y * y < 64 * 64 ==> exists|c: Rgb|
                #[trigger] call_ensures(shade, (n,), c) && texel == 0xff00_0000 + c.b * 65536 + c.g
                    * 256 + c.r
            &&& x * x + y * y >= 64 * 64 ==> texel == 0
        }),
{
    law_normal_of_texel(tx, ty);
    if on_sphere(tx, ty) {
        let c = choose|c: Rgb|
            #[trigger] call_ensures(shade, (normal_of(tx, ty),), c) && texel == packed(c);
        law_pixel_of_found(Some(c));
        let (x, y): (int, int) = (2 * tx + 1 - 64, 64 - 2 * ty - 1);
        let n = Normal { nx: x as i32, ny: y as i32, r2: (x * x + y * y) as i32 };
        assert(n == normal_of(tx, ty));
        assert(call_ensures(shade, (n,), c));
    }
}

/// A baked texture holds, at every place of it, a colour that was found for the normal
/// of that place, or nothing outside the disc.
pub proof fn law_texture_shows_its_normals<F: Fn(Normal) -> Rgb>(
    shade: F,
    tex: Seq<u32>,
    tx: int,
    ty: int,
)
    requires
        baked(shade, tex),
        0 <= tx < 64,
        0 <= ty < 64,
    ensures
        ({
            let (x, y) = (2 * tx + 1 - 64, 64 - 2 * ty - 1);
            let n = Normal { nx: x as i32, ny: y as i32, r2: (x * x + y * y) as i32 };
            &&& x * x + y * y < 64 * 64 ==> exists|c: Rgb|
                #[trigger] call_ensures(shade, (n,), c) && tex[ty * 64 + tx] == 0xff00_0000 + c.b
                    * 65536 + c.g * 256 + c.r
            &&& x * x + y * y >= 64 * 64 ==> tex[ty * 64 + tx] == 0
        }),
{
    assert(texel_baked(shade, tx, ty, tex[ty * MATCAP + tx]));
    law_texel_shows_its_normal(shade, tx, ty, tex[ty * 64 + tx]);
}

} // verus!
