//! Fixed sizes.

use vstd::prelude::*;

verus! {

/// Width of the panel in pixels.
pub const SCREEN_WIDTH: usize = 480;

/// Height of the panel in pixels.
pub const SCREEN_HEIGHT: usize = 272;

/// How many pixels one frame writes. Every one of them is shaded; only those
/// inside a silhouette are ray traced.
pub const RAYS_PER_FRAME: usize = 480 * 272;

/// Pixels from one row of the sprite buffer to the next. A power of two, as
/// the texture unit wants.
pub const SPRITE_STRIDE: usize = 512;

/// Rows of the sprite buffer.
pub const SPRITE_ROWS: usize = 512;

/// Spheres in the scene.
pub const SPHERES: usize = 4;

} // verus!
