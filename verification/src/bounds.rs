//! Axis-aligned rectangle used for hit-testing the board's placement
//! region.

use vstd::prelude::*;

verus! {

/// A rectangle in the hosting window's space: origin position plus size,
/// immutable after placement. Containment is half-open on each axis:
/// `[position, position + size)`.
#[derive(Debug, Clone, Copy)]
pub struct Bounds2 {
    pub position: (i64, i64),
    pub size: (u64, u64),
}

impl Bounds2 {
    /// Both corners stay representable in `i64`, so the containment test
    /// cannot overflow.
    pub open spec fn wf(self) -> bool {
        &&& self.size.0 <= i64::MAX
        &&& self.size.1 <= i64::MAX
        &&& self.position.0 + self.size.0 <= i64::MAX
        &&& self.position.1 + self.size.1 <= i64::MAX
    }

    pub open spec fn spec_in_bounds(self, x: int, y: int) -> bool {
        &&& self.position.0 <= x < self.position.0 + self.size.0
        &&& self.position.1 <= y < self.position.1 + self.size.1
    }

    /// Whether a point lies inside the rectangle.
    pub fn in_bounds(&self, x: i64, y: i64) -> (r: bool)
        requires
            self.wf(),
        ensures
            r == self.spec_in_bounds(x as int, y as int),
    {
        let hi_x = self.position.0 + (self.size.0 as i64);
        let hi_y = self.position.1 + (self.size.1 as i64);
        x >= self.position.0 && x < hi_x && y >= self.position.1 && y < hi_y
    }
}

} // verus!
