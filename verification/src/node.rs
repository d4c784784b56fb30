use vstd::prelude::*;
use crate::geom::point::Point;
use crate::geom::rect::{half_way, mid, Rect};

verus! {

/// The four quarters of a node, clockwise from the top left; the origin is
/// the top-left corner.
#[derive(Debug, Clone, Copy, PartialEq, Eq, Structural)]
pub enum SubNode {
    TopLeft,
    TopRight,
    BottomRight,
    BottomLeft,
}

impl SubNode {
    /// The place of this quarter among a node's sub-nodes.
    pub open spec fn spec_index(&self) -> int {
        match self {
            SubNode::TopLeft => 0,
            SubNode::TopRight => 1,
            SubNode::BottomRight => 2,
            SubNode::BottomLeft => 3,
        }
    }

    /// The place of this quarter among a node's sub-nodes.
    pub fn index(&self) -> (i: usize)
        ensures
            i == self.spec_index(),
            i < 4,
    {
        match self {
            SubNode::TopLeft => 0,
            SubNode::TopRight => 1,
            SubNode::BottomRight => 2,
            SubNode::BottomLeft => 3,
        }
    }
}

/// The quarter of `b` with the given index. The dividing lines are the
/// grid lines at or next below the midlines of `b`.
pub open spec fn quadrant(b: Rect, i: int) -> Rect {
    let mx = mid(b.min.x as int, b.max.x as int) as i64;
    let my = mid(b.min.y as int, b.max.y as int) as i64;
    if i == 0 {
        Rect { min: b.min, max: Point { x: mx, y: my } }
    } else if i == 1 {
        Rect { min: Point { x: mx, y: b.min.y }, max: Point { x: b.max.x, y: my } }
    } else if i == 2 {
        Rect { min: Point { x: mx, y: my }, max: b.max }
    } else {
        Rect { min: Point { x: b.min.x, y: my }, max: Point { x: mx, y: b.max.y } }
    }
}

/// The quarter of `b` that a position belongs to. A position on a dividing
/// line goes to the top or to the left.
pub open spec fn quarter_of(b: Rect, p: Point) -> SubNode {
    let left = p.x <= mid(b.min.x as int, b.max.x as int);
    let top = p.y <= mid(b.min.y as int, b.max.y as int);
    if left && top {
        SubNode::TopLeft
    } else if !left && top {
        SubNode::TopRight
    } else if left && !top {
        SubNode::BottomLeft
    } else {
        SubNode::BottomRight
    }
}

/// `quarter_of`, computed.
pub fn find_sub_node(bounds: &Rect, p: &Point) -> (sn: SubNode)
    requires
        bounds.wf(),
    ensures
        sn == quarter_of(*bounds, *p),
{
    let left = p.x <= half_way(bounds.min.x, bounds.max.x);
    let top = p.y <= half_way(bounds.min.y, bounds.max.y);
    if left && top {
        SubNode::TopLeft
    } else if !left && top {
        SubNode::TopRight
    } else if left && !top {
        SubNode::BottomLeft
    } else {
        SubNode::BottomRight
    }
}

/// The quarter of `b` that a rectangle belongs to: the one that its
/// midpoint falls in. The midpoint is taken as it is, between two grid
/// lines where a side is of odd length; on a dividing line it goes to the
/// top or to the left.
pub open spec fn quarter_of_rect(b: Rect, r: Rect) -> SubNode {
    let left = r.min.x + r.max.x <= 2 * mid(b.min.x as int, b.max.x as int);
    let top = r.min.y + r.max.y <= 2 * mid(b.min.y as int, b.max.y as int);
    if left && top {
        SubNode::TopLeft
    } else if !left && top {
        SubNode::TopRight
    } else if left && !top {
        SubNode::BottomLeft
    } else {
        SubNode::BottomRight
    }
}

/// `quarter_of_rect`, computed.
pub fn find_sub_node_of_rect(bounds: &Rect, r: &Rect) -> (sn: SubNode)
    requires
        bounds.wf(),
    ensures
        sn == quarter_of_rect(*bounds, *r),
{
    let mx: i128 = half_way(bounds.min.x, bounds.max.x) as i128;
    let my: i128 = half_way(bounds.min.y, bounds.max.y) as i128;
    let left = r.min.x as i128 + r.max.x as i128 <= 2 * mx;
    let top = r.min.y as i128 + r.max.y as i128 <= 2 * my;
    if left && top {
        SubNode::TopLeft
    } else if !left && top {
        SubNode::TopRight
    } else if left && !top {
        SubNode::BottomLeft
    } else {
        SubNode::BottomRight
    }
}

/// A position belongs to the quarter that it belongs to as a rectangle.
pub proof fn lemma_quarter_of_point(b: Rect, p: Point)
    ensures
        quarter_of_rect(b, Rect { min: p, max: p }) == quarter_of(b, p),
{
}

/// A rectangle that lies in a quarter lies in the quarter it belongs to.
pub proof fn lemma_quarter_of_rect(b: Rect, r: Rect, i: int)
    requires
        b.wf(),
        r.wf(),
        0 <= i < 4,
        quadrant(b, i).has_rect(r),
    ensures
        quadrant(b, quarter_of_rect(b, r).spec_index()).has_rect(r),
{
}

/// The four quarters lie in the rectangle and cover it, two of them share
/// boundary points only, and a position in the rectangle lies in the quarter
/// it belongs to.
pub proof fn lemma_quadrants_tile(b: Rect)
    requires
        b.wf(),
    ensures
        forall|i: int| 0 <= i < 4 ==> (#[trigger] quadrant(b, i)).wf() && b.has_rect(quadrant(b, i)),
        forall|p: Point|
            #[trigger] b.has_point(p) <==> exists|i: int|
                0 <= i < 4 && #[trigger] quadrant(b, i).has_point(p),
        forall|i: int, j: int, p: Point|
            0 <= i < 4 && 0 <= j < 4 && i != j && #[trigger] quadrant(b, i).has_point(p)
                && #[trigger] quadrant(b, j).has_point(p) ==> on_boundary(quadrant(b, i), p)
                && on_boundary(quadrant(b, j), p),
        forall|p: Point|
            #[trigger] b.has_point(p) ==> quadrant(b, quarter_of(b, p).spec_index()).has_point(p),
{
    assert forall|p: Point| #[trigger] b.has_point(p) implies exists|i: int|
        0 <= i < 4 && #[trigger] quadrant(b, i).has_point(p) by {
        let i = quarter_of(b, p).spec_index();
        assert(quadrant(b, i).has_point(p));
    }
}

/// The point lies on one of the four sides of the rectangle.
pub open spec fn on_boundary(r: Rect, p: Point) -> bool {
    r.has_point(p) && (p.x == r.min.x || p.x == r.max.x || p.y == r.min.y || p.y == r.max.y)
}

} // verus!
