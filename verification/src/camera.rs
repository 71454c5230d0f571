//! Where a camera sees a place.
//!
//! Places are relative to the eye. The arithmetic here is exact: it says what the
//! program's floating-point numbers stand for.

use crate::reach::dot;
use vstd::prelude::*;

verus! {

/// A camera: the directions it looks in and in which columns and rows grow, all
/// of the same length `unit`; the tangent of half the vertical field of view;
/// and the aspect ratio of the screen. The last two are fractions.
pub struct Camera {
    pub fwd: (int, int, int),
    pub right: (int, int, int),
    pub down: (int, int, int),
    pub unit: int,
    pub tan_over: int,
    pub tan_under: int,
    pub aspect_over: int,
    pub aspect_under: int,
}

impl Camera {
    /// Tangent and aspect ratio are positive.
    pub open spec fn wf(self) -> bool {
        &&& self.tan_over > 0 && self.tan_under > 0
        &&& self.aspect_over > 0 && self.aspect_under > 0
    }

    /// The three directions stand at right angles and have the length `unit`.
    pub open spec fn upright(self) -> bool {
        &&& self.unit > 0
        &&& dot(self.fwd, self.fwd) == self.unit * self.unit
        &&& dot(self.right, self.right) == self.unit * self.unit
        &&& dot(self.down, self.down) == self.unit * self.unit
        &&& dot(self.fwd, self.right) == 0
        &&& dot(self.fwd, self.down) == 0
        &&& dot(self.right, self.down) == 0
    }

    /// The aspect ratio is that of a screen of this size.
    pub open spec fn fits(self, width: int, height: int) -> bool {
        width * self.aspect_under == height * self.aspect_over
    }
}

/// The column that a place is projected to, as a fraction of `column_under`:
/// half the width times one plus the slope to the right, over tangent and
/// aspect ratio.
pub open spec fn column(cam: Camera, width: int, q: (int, int, int)) -> int {
    width * ((cam.tan_over * cam.aspect_over) * dot(cam.fwd, q) + (cam.tan_under
        * cam.aspect_under) * dot(cam.right, q))
}

/// What the column is a fraction of.
pub open spec fn column_under(cam: Camera, q: (int, int, int)) -> int {
    2 * ((cam.tan_over * cam.aspect_over) * dot(cam.fwd, q))
}

/// The row that a place is projected to, as a fraction of `row_under`: half the
/// height times one plus the slope downwards, over the tangent.
pub open spec fn row(cam: Camera, height: int, q: (int, int, int)) -> int {
    height * (cam.tan_over * dot(cam.fwd, q) + cam.tan_under * dot(cam.down, q))
}

/// What the row is a fraction of.
pub open spec fn row_under(cam: Camera, q: (int, int, int)) -> int {
    2 * (cam.tan_over * dot(cam.fwd, q))
}

/// Whether a place in front of the eye is projected into a pixel.
pub open spec fn seen_at(
    cam: Camera,
    width: int,
    height: int,
    q: (int, int, int),
    px: int,
    py: int,
) -> bool {
    &&& dot(cam.fwd, q) > 0
    &&& px * column_under(cam, q) <= column(cam, width, q) < (px + 1) * column_under(cam, q)
    &&& py * row_under(cam, q) <= row(cam, height, q) < (py + 1) * row_under(cam, q)
}

} // verus!
