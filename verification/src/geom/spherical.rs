//! Distances on the sphere: which pairs of shapes can be measured, and
//! which positions of a rectangle are measured from.

use vstd::prelude::*;
use crate::error::Error;
use crate::geom::calc::{Dist, DistEuclidean, DistHaversine};
use crate::geom::euclidean::{gap, overlap_x, overlap_y, span};
use crate::geom::geometry::{GeometryRef, Line};
use crate::geom::point::Point;
use crate::geom::rect::Rect;

verus! {

/// The side of a rectangle to measure a position outside it from: the
/// left or the right side where the position lies to the left or to the
/// right, and else the lower or the upper side.
pub open spec fn facing_side(pt: Point, r: Rect) -> Line {
    if pt.x < r.min.x {
        Line { start: r.min, end: Point { x: r.min.x, y: r.max.y } }
    } else if pt.x > r.max.x {
        Line { start: Point { x: r.max.x, y: r.min.y }, end: r.max }
    } else if pt.y < r.min.y {
        Line { start: r.min, end: Point { x: r.max.x, y: r.min.y } }
    } else {
        Line { start: Point { x: r.min.x, y: r.max.y }, end: r.max }
    }
}

/// `d` is an answer for the distance between a position and a rectangle
/// on the sphere: nothing where the position lies in the rectangle or on
/// its boundary, and else what the formula can answer for the position and
/// the side that faces it.
pub open spec fn sphere_pt_rect_answer<X: DistHaversine>(math: &X, pt: Point, r: Rect, d: Dist) -> bool {
    if r.has_point(pt) {
        d == 0
    } else {
        call_ensures(X::dist_pt_line, (math, &pt, &facing_side(pt, r)), d)
    }
}

/// The distance between a position and a rectangle on the sphere.
pub fn dist_pt_rect<X: DistHaversine>(math: &X, pt: &Point, rect: &Rect) -> (d: Dist)
    ensures
        sphere_pt_rect_answer(math, *pt, *rect, d),
{
    let lo = rect.min;
    let hi = rect.max;
    if pt.x >= lo.x && pt.x <= hi.x && pt.y >= lo.y && pt.y <= hi.y {
        return 0;
    }
    let side = if pt.x < lo.x {
        Line { start: lo, end: Point { x: lo.x, y: hi.y } }
    } else if pt.x > hi.x {
        Line { start: Point { x: hi.x, y: lo.y }, end: hi }
    } else if pt.y < lo.y {
        Line { start: lo, end: Point { x: hi.x, y: lo.y } }
    } else {
        Line { start: Point { x: lo.x, y: hi.y }, end: hi }
    };
    math.dist_pt_line(pt, &side)
}

/// The latitude to measure two rectangles at that overlap in latitude:
/// of the latitudes they share, the one farthest from the equator.
pub open spec fn shared_latitude(a: Rect, b: Rect) -> int {
    let lo = if a.min.y >= b.min.y { a.min.y } else { b.min.y };
    let hi = if a.max.y <= b.max.y { a.max.y } else { b.max.y };
    if gap(lo as int, 0) > gap(hi as int, 0) {
        lo as int
    } else {
        hi as int
    }
}

/// The latitudes of the facing sides of two rectangles that lie apart in
/// latitude: first that of `a`, then that of `b`.
pub open spec fn facing_latitudes(a: Rect, b: Rect) -> (int, int) {
    if a.max.y < b.min.y {
        (a.max.y as int, b.min.y as int)
    } else {
        (a.min.y as int, b.max.y as int)
    }
}

/// The nearer pair of parallels of two rectangles that overlap in
/// longitude only: first that of `a`, then that of `b`.
pub open spec fn nearer_parallels(a: Rect, b: Rect) -> (int, int) {
    if gap(a.min.y as int, b.max.y as int) < gap(b.min.y as int, a.max.y as int) {
        (a.min.y as int, b.max.y as int)
    } else {
        (a.max.y as int, b.min.y as int)
    }
}

/// The two pairs of positions that two rectangles apart in longitude may
/// be nearest at: the east side of `a` with the west side of `b`, and the
/// west side of `a` with the east side of `b`, which is the nearer pair
/// where the way round the sphere is the shorter one.
pub open spec fn side_pairs(a: Rect, b: Rect) -> ((Point, Point), (Point, Point)) {
    let (ya, yb) = if overlap_y(a, b) {
        (shared_latitude(a, b), shared_latitude(a, b))
    } else {
        facing_latitudes(a, b)
    };
    (
        (Point { x: a.max.x, y: ya as i64 }, Point { x: b.min.x, y: yb as i64 }),
        (Point { x: a.min.x, y: ya as i64 }, Point { x: b.max.x, y: yb as i64 }),
    )
}

/// The pair of positions on a shared meridian that two rectangles which
/// overlap in longitude only are nearest at.
pub open spec fn meridian_pair(a: Rect, b: Rect) -> (Point, Point) {
    let x = if a.min.x >= b.min.x { a.min.x } else { b.min.x };
    let (ya, yb) = nearer_parallels(a, b);
    (Point { x, y: ya as i64 }, Point { x, y: yb as i64 })
}

/// `d` is an answer for the distance between two rectangles on the
/// sphere, neither of which goes across the meridian of 180 degrees:
/// nothing where they meet; where they overlap in longitude only, what the
/// formula can answer for the nearer pair of parallels; and else the lesser
/// of what it can answer for the two pairs of sides.
pub open spec fn sphere_rect_answer<X: DistHaversine>(math: &X, a: Rect, b: Rect, d: Dist) -> bool {
    if overlap_x(a, b) && overlap_y(a, b) {
        d == 0
    } else if overlap_x(a, b) {
        call_ensures(X::dist_pt_pt, (math, &meridian_pair(a, b).0, &meridian_pair(a, b).1), d)
    } else {
        exists|da: Dist, db: Dist|
            {
                &&& #[trigger] call_ensures(
                    X::dist_pt_pt,
                    (math, &side_pairs(a, b).0.0, &side_pairs(a, b).0.1),
                    da,
                )
                &&& #[trigger] call_ensures(
                    X::dist_pt_pt,
                    (math, &side_pairs(a, b).1.0, &side_pairs(a, b).1.1),
                    db,
                )
                &&& d == if da < db {
                    da
                } else {
                    db
                }
            }
    }
}

/// The distance between two rectangles on the sphere.
pub fn dist_rect_rect<X: DistHaversine>(math: &X, r1: &Rect, r2: &Rect) -> (d: Dist)
    ensures
        sphere_rect_answer(math, *r1, *r2, d),
{
    let over_x = r1.max.x >= r2.min.x && r2.max.x >= r1.min.x;
    let over_y = r1.max.y >= r2.min.y && r2.max.y >= r1.min.y;
    if over_x && over_y {
        0
    } else if over_x {
        let x = if r1.min.x >= r2.min.x { r1.min.x } else { r2.min.x };
        let (y1, y2) = if span(r1.min.y, r2.max.y) < span(r2.min.y, r1.max.y) {
            (r1.min.y, r2.max.y)
        } else {
            (r1.max.y, r2.min.y)
        };
        math.dist_pt_pt(&Point { x, y: y1 }, &Point { x, y: y2 })
    } else {
        let (y1, y2) = if over_y {
            let lo = if r1.min.y >= r2.min.y { r1.min.y } else { r2.min.y };
            let hi = if r1.max.y <= r2.max.y { r1.max.y } else { r2.max.y };
            let lat = if span(lo, 0) > span(hi, 0) { lo } else { hi };
            (lat, lat)
        } else if r1.max.y < r2.min.y {
            (r1.max.y, r2.min.y)
        } else {
            (r1.min.y, r2.max.y)
        };
        let da = math.dist_pt_pt(&Point { x: r1.max.x, y: y1 }, &Point { x: r2.min.x, y: y2 });
        let db = math.dist_pt_pt(&Point { x: r1.min.x, y: y1 }, &Point { x: r2.max.x, y: y2 });
        if da < db {
            da
        } else {
            db
        }
    }
}

/// `out` is an answer for the distance between two shapes on the sphere.
/// A position can be measured against a position, a segment and a
/// rectangle, and a rectangle against a rectangle; no other pair can.
pub open spec fn sphere_answer<X: DistHaversine>(
    math: &X,
    lhs: GeometryRef<'_>,
    rhs: GeometryRef<'_>,
    out: Result<Dist, Error>,
) -> bool {
    match (lhs, rhs) {
        (GeometryRef::Point(a), GeometryRef::Point(b)) => out matches Ok(d) && call_ensures(
            X::dist_pt_pt,
            (math, a, b),
            d,
        ),
        (GeometryRef::Point(a), GeometryRef::Line(l)) => out matches Ok(d) && call_ensures(
            X::dist_pt_line,
            (math, a, l),
            d,
        ),
        (GeometryRef::Line(l), GeometryRef::Point(a)) => out matches Ok(d) && call_ensures(
            X::dist_pt_line,
            (math, a, l),
            d,
        ),
        (GeometryRef::Point(a), GeometryRef::Rect(r)) => out matches Ok(d) && sphere_pt_rect_answer(
            math,
            *a,
            *r,
            d,
        ),
        (GeometryRef::Rect(r), GeometryRef::Point(a)) => out matches Ok(d) && sphere_pt_rect_answer(
            math,
            *a,
            *r,
            d,
        ),
        (GeometryRef::Rect(a), GeometryRef::Rect(b)) => out matches Ok(d) && sphere_rect_answer(
            math,
            *a,
            *b,
            d,
        ),
        _ => out == Err::<Dist, Error>(Error::UnsupportedGeometry),
    }
}

/// The distance between two shapes on the sphere, or the error
/// `UnsupportedGeometry` for a pair that cannot be measured.
pub fn dist_haversine<X: DistHaversine>(math: &X, lhs: &GeometryRef<'_>, rhs: &GeometryRef<'_>) -> (out:
    Result<Dist, Error>)
    ensures
        sphere_answer(math, *lhs, *rhs, out),
{
    match (lhs, rhs) {
        (GeometryRef::Point(a), GeometryRef::Point(b)) => Ok(math.dist_pt_pt(a, b)),
        (GeometryRef::Point(a), GeometryRef::Line(l)) => Ok(math.dist_pt_line(a, l)),
        (GeometryRef::Line(l), GeometryRef::Point(a)) => Ok(math.dist_pt_line(a, l)),
        (GeometryRef::Point(a), GeometryRef::Rect(r)) => Ok(dist_pt_rect(math, a, r)),
        (GeometryRef::Rect(r), GeometryRef::Point(a)) => Ok(dist_pt_rect(math, a, r)),
        (GeometryRef::Rect(a), GeometryRef::Rect(b)) => Ok(dist_rect_rect(math, a, b)),
        _ => Err(Error::UnsupportedGeometry),
    }
}

/// Where every formula has one answer only, so has the distance between
/// two shapes on the sphere.
pub proof fn lemma_sphere_one_answer<X: DistEuclidean + DistHaversine>(
    math: &X,
    lhs: GeometryRef<'_>,
    rhs: GeometryRef<'_>,
    a: Result<Dist, Error>,
    b: Result<Dist, Error>,
)
    requires
        crate::geom::calc::pure_math(math),
        sphere_answer(math, lhs, rhs, a),
        sphere_answer(math, lhs, rhs, b),
    ensures
        a == b,
{
}

} // verus!
