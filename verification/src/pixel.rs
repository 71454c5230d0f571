//! Packed colours.
//!
//! The display's 8888 format keeps red in the lowest byte and alpha in the
//! highest. A pixel is either opaque, or the number zero, which is transparent.

use crate::binary32::{law_whole_part, one, Binary32};
use vstd::arithmetic::power2::{lemma2_to64, lemma_pow2_adds, lemma_pow2_pos};
use vstd::prelude::*;

verus! {

/// A colour as three bytes, ready to be packed.
#[derive(Clone, Copy, Debug, PartialEq, Eq, Structural)]
pub struct Rgb {
    pub r: u8,
    pub g: u8,
    pub b: u8,
}

/// The red byte of a packed colour.
pub open spec fn red(c: u32) -> int {
    c as int % 256
}

/// The green byte of a packed colour.
pub open spec fn green(c: u32) -> int {
    c as int / 256 % 256
}

/// The blue byte of a packed colour.
pub open spec fn blue(c: u32) -> int {
    c as int / 65536 % 256
}

/// The alpha byte of a packed colour.
pub open spec fn alpha(c: u32) -> int {
    c as int / 16777216
}

/// A packed colour that hides what is behind it.
pub open spec fn opaque(c: u32) -> bool {
    alpha(c) == 255
}

/// The opaque colour with these three bytes.
pub open spec fn opaque_of(r: int, g: int, b: int) -> u32 {
    (0xff00_0000 + b * 65536 + g * 256 + r) as u32
}

/// The packed form of a colour.
pub open spec fn packed(c: Rgb) -> u32 {
    opaque_of(c.r as int, c.g as int, c.b as int)
}

/// The pixel for what a ray found: its colour, or transparent where it found
/// nothing.
pub open spec fn pixel_of(found: Option<Rgb>) -> u32 {
    match found {
        Some(c) => packed(c),
        None => 0,
    }
}

/// The midpoint of two colours, channel by channel and rounded down.
pub open spec fn blended(a: u32, b: u32) -> u32 {
    opaque_of((red(a) + red(b)) / 2, (green(a) + green(b)) / 2, (blue(a) + blue(b)) / 2)
}

/// The pixel between two traced neighbours: their average, or transparent when
/// either of them is.
pub open spec fn between(a: u32, b: u32) -> u32 {
    if a == 0 || b == 0 {
        0
    } else {
        blended(a, b)
    }
}

/// The byte for one linear channel. Values outside 0 to 1 are clipped; inside,
/// the byte is the whole part of `scaled`, the gamma corrected channel times
/// 255.
pub open spec fn channel_byte(v: Binary32, scaled: Binary32) -> int {
    if v.at_most(Binary32 { bits: 0 }) {
        0
    } else if (Binary32 { bits: 0x3f80_0000 }).at_most(v) || scaled.whole() > 255 {
        255
    } else {
        scaled.whole()
    }
}

/// One channel of a colour as a byte. `v` is the linear channel and `scaled`
/// its gamma corrected value times 255, which only matters between 0 and 1.
pub fn to_byte(v: Binary32, scaled: Binary32) -> (r: u8)
    ensures
        r == channel_byte(v, scaled),
{
    if v.le(Binary32 { bits: 0 }) {
        return 0;
    }
    if (Binary32 { bits: 0x3f80_0000 }).le(v) {
        return 255;
    }
    let whole: u32 = scaled.trunc_u32();
    if whole > 255 {
        255
    } else {
        whole as u8
    }
}

/// Packs a colour, opaque.
pub fn pack(c: Rgb) -> (p: u32)
    ensures
        p == packed(c),
{
    let r: u32 = c.r as u32;
    let g: u32 = c.g as u32;
    let b: u32 = c.b as u32;
    assert((0xff00_0000u32 | (b << 16u32) | (g << 8u32) | r) == 0xff00_0000 + b * 65536 + g * 256
        + r) by (bit_vector)
        requires
            r < 256,
            g < 256,
            b < 256,
    ;
    0xff00_0000 | (b << 16) | (g << 8) | r
}

/// Midpoint of two packed colours, channel by channel. The result is opaque.
///
/// A midpoint is what both have in common and half of what they differ in. The
/// halves are taken with the lowest bit of each channel masked off, so no
/// channel can carry into its neighbour.
pub fn blend(a: u32, b: u32) -> (p: u32)
    ensures
        p == blended(a, b),
{
    let common: u32 = a & b;
    let half: u32 = ((a ^ b) & 0xfefe_fefe) >> 1;
    assert(common + half <= 0xffff_ffff) by (bit_vector)
        requires
            common == a & b,
            half == ((a ^ b) & 0xfefe_fefe) >> 1u32,
    ;
    let sum: u32 = common + half;
    assert((sum | 0xff00_0000) == 0xff00_0000 + ((a / 65536 % 256 + b / 65536 % 256) / 2) * 65536
        + ((a / 256 % 256 + b / 256 % 256) / 2) * 256 + ((a % 256 + b % 256) / 2))
        by (bit_vector)
        requires
            sum == (a & b) + (((a ^ b) & 0xfefe_fefe) >> 1u32),
    ;
    sum | 0xff00_0000
}

/// Taking an opaque colour apart gives back its three bytes.
pub proof fn law_channels_of_opaque(r: int, g: int, b: int)
    requires
        0 <= r < 256,
        0 <= g < 256,
        0 <= b < 256,
    ensures
        red(opaque_of(r, g, b)) == r,
        green(opaque_of(r, g, b)) == g,
        blue(opaque_of(r, g, b)) == b,
        opaque(opaque_of(r, g, b)),
        opaque_of(r, g, b) != 0,
{
}

/// Packing loses nothing: the bytes come back, and the alpha byte is full.
pub proof fn law_pack_keeps_channels(c: Rgb)
    ensures
        red(packed(c)) == c.r,
        green(packed(c)) == c.g,
        blue(packed(c)) == c.b,
        opaque(packed(c)),
{
    law_channels_of_opaque(c.r as int, c.g as int, c.b as int);
}

/// A pixel is opaque where a ray hit and transparent where it missed, and the
/// two cannot be mistaken for each other.
pub proof fn law_pixel_opaque_or_clear(found: Option<Rgb>)
    ensures
        found is Some ==> opaque(pixel_of(found)),
        found is None <==> pixel_of(found) == 0,
{
    if let Some(c) = found {
        law_channels_of_opaque(c.r as int, c.g as int, c.b as int);
    }
}

/// Blending gives the midpoint of each channel by itself: no channel carries
/// into its neighbour, and the result is opaque.
pub proof fn law_blend_is_midpoint(a: u32, b: u32)
    ensures
        red(blended(a, b)) == (red(a) + red(b)) / 2,
        green(blended(a, b)) == (green(a) + green(b)) / 2,
        blue(blended(a, b)) == (blue(a) + blue(b)) / 2,
        opaque(blended(a, b)),
        blended(a, b) != 0,
{
    law_channels_of_opaque(
        (red(a) + red(b)) / 2,
        (green(a) + green(b)) / 2,
        (blue(a) + blue(b)) / 2,
    );
}

/// An opaque colour blended with itself is that colour.
pub proof fn law_blend_with_itself(a: u32)
    requires
        opaque(a),
    ensures
        blended(a, a) == a,
{
    law_pixel_is_its_bytes(a);
    let (r, g, b): (int, int, int) = (red(a), green(a), blue(a));
    assert((r + r) / 2 == r && (g + g) / 2 == g && (b + b) / 2 == b);
    assert(a as int == 0xff00_0000 + b * 65536 + g * 256 + r);
}

/// Which of two colours comes first makes no difference to their blend.
pub proof fn law_blend_commutes(a: u32, b: u32)
    ensures
        blended(a, b) == blended(b, a),
        between(a, b) == between(b, a),
{
}

/// The pixel between two others is transparent exactly where one of them is:
/// at a silhouette nothing is guessed.
pub proof fn law_between_keeps_edges(a: u32, b: u32)
    ensures
        between(a, b) == 0 <==> a == 0 || b == 0,
        between(a, b) == 0 || opaque(between(a, b)),
{
    law_blend_is_midpoint(a, b);
}

/// A packed colour is made of its four bytes, red lowest and alpha highest.
pub proof fn law_pixel_is_its_bytes(c: u32)
    ensures
        0 <= red(c) < 256 && 0 <= green(c) < 256 && 0 <= blue(c) < 256 && 0 <= alpha(c) < 256,
        c == red(c) + 256 * green(c) + 65536 * blue(c) + 16777216 * alpha(c),
        opaque(c) <==> c >= 0xff00_0000,
{
}

/// The pixel for what a ray found, byte by byte.
pub proof fn law_pixel_of_found(found: Option<Rgb>)
    ensures
        found matches Some(c) ==> pixel_of(found) == 0xff00_0000 + c.b * 65536 + c.g * 256 + c.r,
        found matches Some(c) ==> pixel_of(found) == packed(c),
        found is None ==> pixel_of(found) == 0,
{
}

/// Each channel of the pixel between two others is their midpoint, rounded down:
/// twice the channel is the sum of the two, or one less.
pub proof fn law_between_is_midpoint(a: u32, b: u32)
    requires
        a != 0,
        b != 0,
    ensures
        ({
            let m = between(a, b) as int;
            &&& m >= 0xff00_0000
            &&& 2 * (m % 256) <= a as int % 256 + b as int % 256 <= 2 * (m % 256) + 1
            &&& 2 * (m / 256 % 256) <= a as int / 256 % 256 + b as int / 256 % 256 <= 2 * (m / 256
                % 256) + 1
            &&& 2 * (m / 65536 % 256) <= a as int / 65536 % 256 + b as int / 65536 % 256 <= 2 * (m
                / 65536 % 256) + 1
        }),
{
    law_blend_is_midpoint(a, b);
}

/// The byte of a channel: nothing up to 0, everything from 1 on, and in between
/// the one whole number that `scaled` has reached, clipped to what a byte holds.
pub proof fn law_channel_byte_clips(v: Binary32, scaled: Binary32)
    ensures
        !v.nan() && v.value() <= 0 ==> channel_byte(v, scaled) == 0,
        !v.nan() && v.value() >= one() ==> channel_byte(v, scaled) == 255,
        v.nan() || 0 < v.value() < one() ==> {
            &&& scaled.nan() || scaled.value() < 0 ==> channel_byte(v, scaled) == 0
            &&& !scaled.nan() && 0 <= scaled.value() < 256 * one() ==> channel_byte(v, scaled)
                * one() <= scaled.value() < (channel_byte(v, scaled) + 1) * one()
            &&& !scaled.nan() && scaled.value() >= 256 * one() ==> channel_byte(v, scaled) == 255
        },
{
    lemma_pow2_pos(149);
    lemma_pow2_adds(23, 126);
    lemma2_to64();
    assert((Binary32 { bits: 0x3f80_0000 }).value() == one()) by {
        assert(0x3f80_0000nat / 0x80_0000 == 127);
        assert(0x3f80_0000nat % 0x80_0000 == 0);
    }
    assert((Binary32 { bits: 0 }).value() == 0);
    law_whole_part(scaled);
    let (w, u, x): (int, int, int) = (scaled.whole(), one(), scaled.value());
    if !scaled.nan() && 0 <= x < 0x1_0000_0000 * u {
        if w > 255 {
            assert(w * u >= 256 * u) by (nonlinear_arith)
                requires
                    w >= 256,
                    u > 0,
            ;
        } else {
            assert((w + 1) * u <= 256 * u) by (nonlinear_arith)
                requires
                    w + 1 <= 256,
                    u > 0,
            ;
        }
    }
}

} // verus!
