//! Rectangular rooms.

use vstd::prelude::*;

use crate::grid::Point;

verus! {

/// An axis-aligned rectangle covering the cells `x1 <= x < x2`, `y1 <= y < y2`.
#[derive(Clone, Copy, Debug, PartialEq, Eq, Structural)]
pub struct Rect {
    pub x1: i32,
    pub y1: i32,
    pub x2: i32,
    pub y2: i32,
}

/// `a / 2` rounded down, for any integer `a`.
pub open spec fn half_down(a: int) -> int {
    a / 2
}

impl Rect {
    /// True when the two rectangles share a cell: their ranges overlap on
    /// both axes. Rectangles that only touch along an edge do not intersect.
    pub open spec fn intersects_spec(&self, other: &Rect) -> bool {
        self.x1 < other.x2 && other.x1 < self.x2 && self.y1 < other.y2 && other.y1 < self.y2
    }

    /// The cell at the middle of the rectangle, rounded down on each axis.
    pub open spec fn center_spec(&self) -> Point {
        Point {
            x: half_down(self.x1 + self.x2) as i32,
            y: half_down(self.y1 + self.y2) as i32,
        }
    }

    /// True when the cell `(x, y)` belongs to the rectangle.
    pub open spec fn contains(&self, x: int, y: int) -> bool {
        self.x1 <= x < self.x2 && self.y1 <= y < self.y2
    }

    /// The rectangle anchored at `(x, y)` with width `w` and height `h`.
    pub fn with_size(x: i32, y: i32, w: i32, h: i32) -> (r: Rect)
        requires
            i32::MIN <= x + w <= i32::MAX,
            i32::MIN <= y + h <= i32::MAX,
        ensures
            r.x1 == x,
            r.y1 == y,
            r.x2 == x + w,
            r.y2 == y + h,
    {
        Rect { x1: x, y1: y, x2: x + w, y2: y + h }
    }

    pub fn intersect(&self, other: &Rect) -> (r: bool)
        ensures
            r == self.intersects_spec(other),
    {
        self.x1 < other.x2 && other.x1 < self.x2 && self.y1 < other.y2 && other.y1 < self.y2
    }

    pub fn center(&self) -> (p: Point)
        ensures
            p == self.center_spec(),
    {
        Point { x: mid(self.x1, self.x2), y: mid(self.y1, self.y2) }
    }
}

/// `(a + b) / 2` rounded down, without overflow.
fn mid(a: i32, b: i32) -> (r: i32)
    ensures
        r as int == half_down(a + b),
{
    let s: i64 = a as i64 + b as i64;
    if s >= 0 {
        ((s as u64) / 2) as i32
    } else {
        let n: u64 = (1 - s) as u64;
        let q: i64 = (n / 2) as i64;
        assert(q == (1 - s) / 2);
        (0 - q) as i32
    }
}

} // verus!
