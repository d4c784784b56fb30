use vstd::prelude::*;

verus! {

/// A position on the grid.
#[derive(Debug, Clone, Copy, PartialEq, Eq, Structural)]
pub struct Point {
    pub x: i64,
    pub y: i64,
}

impl Point {
    /// The position at (`x`, `y`).
    pub fn new(x: i64, y: i64) -> (p: Point)
        ensures
            p == (Point { x, y }),
    {
        Point { x, y }
    }

    /// The two coordinates.
    pub fn x_y(&self) -> (c: (i64, i64))
        ensures
            c == (self.x, self.y),
    {
        (self.x, self.y)
    }
}

} // verus!
