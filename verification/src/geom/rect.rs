use vstd::prelude::*;
use crate::geom::point::Point;

verus! {

/// An axis-aligned rectangle, its boundary included.
#[derive(Debug, Clone, Copy, PartialEq, Eq, Structural)]
pub struct Rect {
    pub min: Point,
    pub max: Point,
}

/// The point half way from `lo` to `hi`, rounded towards `lo`.
pub open spec fn mid(lo: int, hi: int) -> int {
    lo + (hi - lo) / 2
}

/// `mid` on machine integers.
pub fn half_way(lo: i64, hi: i64) -> (m: i64)
    requires
        lo <= hi,
    ensures
        m == mid(lo as int, hi as int),
        lo <= m <= hi,
{
    let span: i128 = hi as i128 - lo as i128;
    let m: i128 = lo as i128 + span / 2;
    m as i64
}

impl Rect {
    /// `min` is not beyond `max` on either axis.
    pub open spec fn wf(&self) -> bool {
        self.min.x <= self.max.x && self.min.y <= self.max.y
    }

    /// The rectangle whose sides pass through the two points.
    pub open spec fn spanning(c1: Point, c2: Point) -> Rect {
        Rect {
            min: Point {
                x: if c1.x < c2.x { c1.x } else { c2.x },
                y: if c1.y < c2.y { c1.y } else { c2.y },
            },
            max: Point {
                x: if c1.x < c2.x { c2.x } else { c1.x },
                y: if c1.y < c2.y { c2.y } else { c1.y },
            },
        }
    }

    /// The rectangle spanned by two corners, given in any order.
    pub fn new(c1: Point, c2: Point) -> (r: Rect)
        ensures
            r == Self::spanning(c1, c2),
            r.wf(),
    {
        let (min_x, max_x) = if c1.x < c2.x { (c1.x, c2.x) } else { (c2.x, c1.x) };
        let (min_y, max_y) = if c1.y < c2.y { (c1.y, c2.y) } else { (c2.y, c1.y) };
        Rect { min: Point { x: min_x, y: min_y }, max: Point { x: max_x, y: max_y } }
    }

    /// The corner with the least coordinates.
    pub fn min(&self) -> (p: Point)
        ensures
            p == self.min,
    {
        self.min
    }

    /// The corner with the greatest coordinates.
    pub fn max(&self) -> (p: Point)
        ensures
            p == self.max,
    {
        self.max
    }

    /// The point is inside or on the boundary.
    pub open spec fn has_point(&self, p: Point) -> bool {
        self.min.x <= p.x <= self.max.x && self.min.y <= p.y <= self.max.y
    }

    /// The other rectangle is inside, boundary contact allowed.
    pub open spec fn has_rect(&self, r: Rect) -> bool {
        self.min.x <= r.min.x && r.max.x <= self.max.x && self.min.y <= r.min.y && r.max.y
            <= self.max.y
    }

    /// The two rectangles share at least one point.
    pub open spec fn meets(&self, r: Rect) -> bool {
        self.max.x >= r.min.x && self.max.y >= r.min.y && self.min.x <= r.max.x && self.min.y
            <= r.max.y
    }

    /// The midpoint of the rectangle, on each axis rounded to the grid
    /// line at or next below it.
    pub open spec fn spec_center(&self) -> Point {
        Point {
            x: mid(self.min.x as int, self.max.x as int) as i64,
            y: mid(self.min.y as int, self.max.y as int) as i64,
        }
    }

    /// The midpoint of the rectangle, on each axis rounded to the grid
    /// line at or next below it.
    pub fn center(&self) -> (c: Point)
        requires
            self.wf(),
        ensures
            c == self.spec_center(),
            self.has_point(c),
    {
        Point { x: half_way(self.min.x, self.max.x), y: half_way(self.min.y, self.max.y) }
    }
}

} // verus!
