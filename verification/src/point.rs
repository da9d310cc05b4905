use std::ops::AddAssign;
use vstd::prelude::*;

verus! {

/// A square of the board, or a step between squares.
///
/// As a square it is 1-based: `x` is the column counted from the left edge and
/// `y` the row counted from the top edge. As a step it is a displacement that
/// `+=` adds component by component.
#[derive(Debug, Clone, Copy, PartialEq, Eq, Structural)]
pub struct Point {
    pub x: isize,
    pub y: isize,
}

impl Point {
    /// Whether `self + other` stays inside the range of `isize` in both components.
    pub open spec fn can_add(self, other: Point) -> bool {
        &&& isize::MIN <= self.x + other.x <= isize::MAX
        &&& isize::MIN <= self.y + other.y <= isize::MAX
    }

    /// The component-wise sum of two points.
    pub open spec fn plus(self, other: Point) -> Point {
        Point { x: (self.x + other.x) as isize, y: (self.y + other.y) as isize }
    }
}

impl AddAssign for Point {
    /// Adds `other` to `self` component by component.
    fn add_assign(&mut self, other: Point)
        requires
            old(self).can_add(other),
        ensures
            *final(self) == old(self).plus(other),
    {
        *self = Point { x: self.x + other.x, y: self.y + other.y };
    }
}

} // verus!
