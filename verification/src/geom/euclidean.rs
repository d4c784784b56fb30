//! Distances in the plane: which points of two rectangles are nearest,
//! and measures that integers can hold exactly.

use vstd::prelude::*;
use crate::geom::calc::{Dist, DistEuclidean, DistHaversine};
use crate::geom::geometry::GeometryRef;
use crate::geom::point::Point;
use crate::geom::rect::Rect;

verus! {

/// The square of the planar distance between two positions.
pub open spec fn spec_dist_sq(a: Point, b: Point) -> int {
    (a.x - b.x) * (a.x - b.x) + (a.y - b.y) * (a.y - b.y)
}

/// How far apart two coordinates are.
pub fn span(a: i64, b: i64) -> (d: u64)
    ensures
        d == if a <= b { b - a } else { a - b },
{
    if a <= b {
        (b as i128 - a as i128) as u64
    } else {
        (a as i128 - b as i128) as u64
    }
}

/// The square of the planar distance between two positions, or the
/// greatest `u128` where the square is greater than that.
pub fn dist_sq_to_pt(a: Point, b: Point) -> (d: u128)
    ensures
        d == if spec_dist_sq(a, b) <= u128::MAX { spec_dist_sq(a, b) } else { u128::MAX as int },
{
    let dx: u128 = span(a.x, b.x) as u128;
    let dy: u128 = span(a.y, b.y) as u128;
    assert(dx * dx == (a.x - b.x) * (a.x - b.x)) by (nonlinear_arith)
        requires
            dx == a.x - b.x || dx == b.x - a.x,
    ;
    assert(dy * dy == (a.y - b.y) * (a.y - b.y)) by (nonlinear_arith)
        requires
            dy == a.y - b.y || dy == b.y - a.y,
    ;
    assert(dx * dx <= 0xffff_ffff_ffff_ffff * 0xffff_ffff_ffff_ffff) by (nonlinear_arith)
        requires
            dx <= 0xffff_ffff_ffff_ffff,
    ;
    assert(dy * dy <= 0xffff_ffff_ffff_ffff * 0xffff_ffff_ffff_ffff) by (nonlinear_arith)
        requires
            dy <= 0xffff_ffff_ffff_ffff,
    ;
    let sx: u128 = dx * dx;
    let sy: u128 = dy * dy;
    match sx.checked_add(sy) {
        Some(s) => s,
        None => u128::MAX,
    }
}

/// The squared distance between the sample positions (1, 1) and (3, 3).
pub fn test() -> (d: u128)
    ensures
        d == 8,
{
    let near = Point::new(1, 1);
    let far = Point::new(3, 3);
    assert(spec_dist_sq(near, far) == 8) by {
        assert((1 - 3) * (1 - 3) == 4) by (nonlinear_arith);
    }
    dist_sq_to_pt(near, far)
}

/// The rectangles share a coordinate on the x axis.
pub open spec fn overlap_x(a: Rect, b: Rect) -> bool {
    a.max.x >= b.min.x && b.max.x >= a.min.x
}

/// The rectangles share a coordinate on the y axis.
pub open spec fn overlap_y(a: Rect, b: Rect) -> bool {
    a.max.y >= b.min.y && b.max.y >= a.min.y
}

/// On one axis, a coordinate of `[a_lo, a_hi]` and one of `[b_lo, b_hi]`
/// that are as near as two such coordinates can be: the facing ends where
/// the intervals lie apart, and a shared coordinate where they do not.
pub open spec fn nearest_on_axis(a_lo: int, a_hi: int, b_lo: int, b_hi: int) -> (int, int) {
    if a_hi < b_lo {
        (a_hi, b_lo)
    } else if b_hi < a_lo {
        (a_lo, b_hi)
    } else if a_lo >= b_lo {
        (a_lo, a_lo)
    } else {
        (b_lo, b_lo)
    }
}

/// A point of `a` and a point of `b` that are as near as two such points
/// can be.
pub open spec fn nearest_points(a: Rect, b: Rect) -> (Point, Point) {
    let x = nearest_on_axis(a.min.x as int, a.max.x as int, b.min.x as int, b.max.x as int);
    let y = nearest_on_axis(a.min.y as int, a.max.y as int, b.min.y as int, b.max.y as int);
    (Point { x: x.0 as i64, y: y.0 as i64 }, Point { x: x.1 as i64, y: y.1 as i64 })
}

/// `nearest_on_axis`, computed.
fn axis_pair(a_lo: i64, a_hi: i64, b_lo: i64, b_hi: i64) -> (c: (i64, i64))
    ensures
        (c.0 as int, c.1 as int) == nearest_on_axis(
            a_lo as int,
            a_hi as int,
            b_lo as int,
            b_hi as int,
        ),
{
    if a_hi < b_lo {
        (a_hi, b_lo)
    } else if b_hi < a_lo {
        (a_lo, b_hi)
    } else if a_lo >= b_lo {
        (a_lo, a_lo)
    } else {
        (b_lo, b_lo)
    }
}

/// The distance of two coordinates.
pub open spec fn gap(a: int, b: int) -> int {
    if a <= b {
        b - a
    } else {
        a - b
    }
}

/// No point of the one rectangle and point of the other are nearer on
/// either axis than the nearest points are, and these are points of the
/// rectangles.
pub proof fn lemma_nearest_points(a: Rect, b: Rect, u: Point, v: Point)
    requires
        a.wf(),
        b.wf(),
        a.has_point(u),
        b.has_point(v),
    ensures
        a.has_point(nearest_points(a, b).0),
        b.has_point(nearest_points(a, b).1),
        gap(nearest_points(a, b).0.x as int, nearest_points(a, b).1.x as int) <= gap(
            u.x as int,
            v.x as int,
        ),
        gap(nearest_points(a, b).0.y as int, nearest_points(a, b).1.y as int) <= gap(
            u.y as int,
            v.y as int,
        ),
        overlap_x(a, b) <==> nearest_points(a, b).0.x == nearest_points(a, b).1.x,
        overlap_y(a, b) <==> nearest_points(a, b).0.y == nearest_points(a, b).1.y,
{
}

/// `d` is an answer for the distance between two rectangles in the plane,
/// each taken as spanned by its corners: nothing where they meet, and else
/// what the formula can answer for their nearest points.
pub open spec fn planar_rect_answer<X: DistEuclidean>(math: &X, a: Rect, b: Rect, d: Dist) -> bool {
    let a = Rect::spanning(a.min, a.max);
    let b = Rect::spanning(b.min, b.max);
    if overlap_x(a, b) && overlap_y(a, b) {
        d == 0
    } else {
        call_ensures(
            X::dist_euclidean,
            (
                math,
                &GeometryRef::Point(&nearest_points(a, b).0),
                &GeometryRef::Point(&nearest_points(a, b).1),
            ),
            d,
        )
    }
}

/// The distance between two rectangles in the plane: nothing where they
/// meet; the gap on the one axis where they overlap on the other; and else
/// the distance between their nearest corners.
pub fn dist_rect_rect<X: DistEuclidean>(math: &X, r1: &Rect, r2: &Rect) -> (d: Dist)
    ensures
        planar_rect_answer(math, *r1, *r2, d),
{
    let r1 = Rect::new(r1.min, r1.max);
    let r2 = Rect::new(r2.min, r2.max);
    let over_x = r1.max.x >= r2.min.x && r2.max.x >= r1.min.x;
    let over_y = r1.max.y >= r2.min.y && r2.max.y >= r1.min.y;
    if over_x && over_y {
        0
    } else {
        let (x1, x2) = axis_pair(r1.min.x, r1.max.x, r2.min.x, r2.max.x);
        let (y1, y2) = axis_pair(r1.min.y, r1.max.y, r2.min.y, r2.max.y);
        let from = Point { x: x1, y: y1 };
        let to = Point { x: x2, y: y2 };
        math.dist_euclidean(&GeometryRef::Point(&from), &GeometryRef::Point(&to))
    }
}

/// `d` is an answer for the distance between two shapes in the plane.
pub open spec fn planar_answer<X: DistEuclidean>(
    math: &X,
    lhs: GeometryRef<'_>,
    rhs: GeometryRef<'_>,
    d: Dist,
) -> bool {
    match (lhs, rhs) {
        (GeometryRef::Rect(a), GeometryRef::Rect(b)) => planar_rect_answer(math, *a, *b, d),
        _ => call_ensures(X::dist_euclidean, (math, &lhs, &rhs), d),
    }
}

/// The distance between two shapes in the plane.
pub fn dist_euclidean<X: DistEuclidean>(math: &X, lhs: &GeometryRef<'_>, rhs: &GeometryRef<'_>) -> (d:
    Dist)
    ensures
        planar_answer(math, *lhs, *rhs, d),
{
    match (lhs, rhs) {
        (GeometryRef::Rect(a), GeometryRef::Rect(b)) => dist_rect_rect(math, a, b),
        _ => math.dist_euclidean(lhs, rhs),
    }
}

/// Where the formula has one answer only, so has the distance between two
/// shapes in the plane.
pub proof fn lemma_planar_one_answer<X: DistEuclidean + DistHaversine>(
    math: &X,
    lhs: GeometryRef<'_>,
    rhs: GeometryRef<'_>,
    d1: Dist,
    d2: Dist,
)
    requires
        crate::geom::calc::pure_math(math),
        planar_answer(math, lhs, rhs, d1),
        planar_answer(math, lhs, rhs, d2),
    ensures
        d1 == d2,
{
}

} // verus!
