use vstd::prelude::*;
use crate::geom::point::Point;
use crate::geom::rect::Rect;
use geo::Intersects;

verus! {

/// Whether the point lies in the rectangle or on its boundary.
pub fn pt_in_rect(rect: &Rect, pt: &Point) -> (inside: bool)
    ensures
        inside == rect.has_point(*pt),
{
    pt.x >= rect.min.x && pt.x <= rect.max.x && pt.y >= rect.min.y && pt.y <= rect.max.y
}

/// Whether `r1` holds all of `r2`, boundary contact included.
pub fn rect_in_rect(r1: &Rect, r2: &Rect) -> (inside: bool)
    ensures
        inside == r1.has_rect(*r2),
{
    r1.min.x <= r2.min.x && r1.max.x >= r2.max.x && r1.min.y <= r2.min.y && r1.max.y >= r2.max.y
}

/// Calls `geo::Intersects::intersects` on two `geo::Rect<i64>` with the
/// corners given. The crate answers no exactly when one rectangle ends
/// before the other begins on some axis.
#[verifier::external_body]
pub(crate) fn rects_intersect(a: &Rect, b: &Rect) -> (hit: bool)
    requires
        a.wf(),
        b.wf(),
    ensures
        hit == a.meets(*b),
{
    let ga = geo::Rect::new(
        geo::Coord { x: a.min.x, y: a.min.y },
        geo::Coord { x: a.max.x, y: a.max.y },
    );
    let gb = geo::Rect::new(
        geo::Coord { x: b.min.x, y: b.min.y },
        geo::Coord { x: b.max.x, y: b.max.y },
    );
    ga.intersects(&gb)
}

} // verus!
