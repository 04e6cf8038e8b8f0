//! Conversion between screen positions and world positions.
use vstd::prelude::*;
use crate::geometry::{Point, in_bounds};

verus! {

/// A window onto the world. Screen positions count from the top-left corner
/// of the window, x to the right and y downward; world positions count y upward.
#[derive(Clone, Copy, Debug, PartialEq, Eq, Structural)]
pub struct Viewport {
    /// World x of the window's left edge.
    pub left: i64,
    /// World y of the window's top edge.
    pub top: i64,
    pub width: i64,
    pub height: i64,
}

impl Viewport {
    pub open spec fn wf(self) -> bool {
        &&& in_bounds(self.left as int)
        &&& in_bounds(self.top as int)
        &&& 0 <= self.width <= crate::geometry::COORD_LIMIT
        &&& 0 <= self.height <= crate::geometry::COORD_LIMIT
    }

    pub open spec fn to_world(self, s: Point) -> Point {
        Point { x: (self.left + s.x) as i64, y: (self.top - s.y) as i64 }
    }

    pub open spec fn to_screen(self, w: Point) -> Point {
        Point { x: (w.x - self.left) as i64, y: (self.top - w.y) as i64 }
    }

    /// A window of the given size whose centre is the world origin.
    pub fn centered(width: i64, height: i64) -> (v: Viewport)
        requires
            0 <= width <= crate::geometry::COORD_LIMIT,
            0 <= height <= crate::geometry::COORD_LIMIT,
        ensures
            v.wf(),
            v.width == width,
            v.height == height,
            v.left == -(width / 2),
            v.top == height / 2,
    {
        Viewport { left: -(width / 2), top: height / 2, width, height }
    }

    /// The world position under the screen position `s`.
    pub fn screen_to_world(&self, s: Point) -> (w: Point)
        requires
            self.wf(),
            s.bounded(),
        ensures
            w == self.to_world(s),
            self.to_screen(w) == s,
    {
        Point { x: self.left + s.x, y: self.top - s.y }
    }

    /// The screen position of the world position `w`.
    pub fn world_to_screen(&self, w: Point) -> (s: Point)
        requires
            self.wf(),
            w.bounded(),
        ensures
            s == self.to_screen(w),
            self.to_world(s) == w,
    {
        Point { x: w.x - self.left, y: self.top - w.y }
    }
}

} // verus!
