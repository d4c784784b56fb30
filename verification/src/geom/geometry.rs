use vstd::prelude::*;
use crate::geom::point::Point;
use crate::geom::rect::Rect;
use geo::BoundingRect;

verus! {

/// A segment between two end points.
#[derive(Debug, Clone, Copy, PartialEq, Eq, Structural)]
pub struct Line {
    pub start: Point,
    pub end: Point,
}

/// A path through its points, in order.
#[derive(Debug, PartialEq, Eq)]
pub struct LineString {
    pub points: Vec<Point>,
}

/// An area: an outer ring and the rings cut out of it.
#[derive(Debug, PartialEq, Eq)]
pub struct Polygon {
    pub exterior: LineString,
    pub interiors: Vec<LineString>,
}

/// A shape that a tree can hold or be probed with, owning its points.
#[derive(Debug, PartialEq, Eq)]
pub enum Geometry {
    Point(Point),
    Line(Line),
    LineString(LineString),
    Polygon(Polygon),
    Rect(Rect),
}

/// A shape that a tree can hold or be probed with, borrowed.
#[derive(Debug, Clone, Copy)]
pub enum GeometryRef<'a> {
    Point(&'a Point),
    Line(&'a Line),
    LineString(&'a LineString),
    Polygon(&'a Polygon),
    Rect(&'a Rect),
}

/// The lesser of two numbers.
pub open spec fn min_int(a: int, b: int) -> int {
    if a <= b { a } else { b }
}

/// The greater of two numbers.
pub open spec fn max_int(a: int, b: int) -> int {
    if a >= b { a } else { b }
}

/// The smallest rectangle that holds every point of a non-empty sequence.
pub open spec fn extent(pts: Seq<Point>) -> Rect
    decreases pts.len(),
{
    if pts.len() <= 1 {
        Rect { min: pts[0], max: pts[0] }
    } else {
        let r = extent(pts.drop_last());
        let p = pts.last();
        Rect {
            min: Point {
                x: min_int(r.min.x as int, p.x as int) as i64,
                y: min_int(r.min.y as int, p.y as int) as i64,
            },
            max: Point {
                x: max_int(r.max.x as int, p.x as int) as i64,
                y: max_int(r.max.y as int, p.y as int) as i64,
            },
        }
    }
}

/// `b` holds every point of `pts`, and each of its four sides passes
/// through one of them.
pub open spec fn is_extent(pts: Seq<Point>, b: Rect) -> bool {
    &&& forall|i: int| 0 <= i < pts.len() ==> b.has_point(#[trigger] pts[i])
    &&& exists|i: int| 0 <= i < pts.len() && (#[trigger] pts[i]).x == b.min.x
    &&& exists|i: int| 0 <= i < pts.len() && (#[trigger] pts[i]).x == b.max.x
    &&& exists|i: int| 0 <= i < pts.len() && (#[trigger] pts[i]).y == b.min.y
    &&& exists|i: int| 0 <= i < pts.len() && (#[trigger] pts[i]).y == b.max.y
}

/// `extent` is the one rectangle that `is_extent` describes.
pub proof fn lemma_extent(pts: Seq<Point>)
    requires
        pts.len() > 0,
    ensures
        is_extent(pts, extent(pts)),
        extent(pts).wf(),
        forall|b: Rect| is_extent(pts, b) ==> b == extent(pts),
    decreases pts.len(),
{
    let e = extent(pts);
    if pts.len() <= 1 {
        assert(pts[0].x == e.min.x && pts[0].y == e.min.y);
    } else {
        let front = pts.drop_last();
        let n = front.len() as int;
        lemma_extent(front);
        let r = extent(front);
        assert forall|i: int| 0 <= i < pts.len() implies e.has_point(#[trigger] pts[i]) by {
            if i < n {
                assert(front[i] == pts[i]);
                assert(r.has_point(front[i]));
            }
        }
        let ix0 = choose|i: int| 0 <= i < front.len() && (#[trigger] front[i]).x == r.min.x;
        let ix1 = choose|i: int| 0 <= i < front.len() && (#[trigger] front[i]).x == r.max.x;
        let iy0 = choose|i: int| 0 <= i < front.len() && (#[trigger] front[i]).y == r.min.y;
        let iy1 = choose|i: int| 0 <= i < front.len() && (#[trigger] front[i]).y == r.max.y;
        assert(front[ix0] == pts[ix0] && front[ix1] == pts[ix1]);
        assert(front[iy0] == pts[iy0] && front[iy1] == pts[iy1]);
        let jx0 = if e.min.x == r.min.x { ix0 } else { n };
        let jx1 = if e.max.x == r.max.x { ix1 } else { n };
        let jy0 = if e.min.y == r.min.y { iy0 } else { n };
        let jy1 = if e.max.y == r.max.y { iy1 } else { n };
        assert(pts[jx0].x == e.min.x);
        assert(pts[jx1].x == e.max.x);
        assert(pts[jy0].y == e.min.y);
        assert(pts[jy1].y == e.max.y);
    }
    assert forall|b: Rect| is_extent(pts, b) implies b == e by {
        let bx0 = choose|i: int| 0 <= i < pts.len() && (#[trigger] pts[i]).x == b.min.x;
        let bx1 = choose|i: int| 0 <= i < pts.len() && (#[trigger] pts[i]).x == b.max.x;
        let by0 = choose|i: int| 0 <= i < pts.len() && (#[trigger] pts[i]).y == b.min.y;
        let by1 = choose|i: int| 0 <= i < pts.len() && (#[trigger] pts[i]).y == b.max.y;
        let ex0 = choose|i: int| 0 <= i < pts.len() && (#[trigger] pts[i]).x == e.min.x;
        let ex1 = choose|i: int| 0 <= i < pts.len() && (#[trigger] pts[i]).x == e.max.x;
        let ey0 = choose|i: int| 0 <= i < pts.len() && (#[trigger] pts[i]).y == e.min.y;
        let ey1 = choose|i: int| 0 <= i < pts.len() && (#[trigger] pts[i]).y == e.max.y;
        assert(e.has_point(pts[bx0]) && e.has_point(pts[bx1]));
        assert(e.has_point(pts[by0]) && e.has_point(pts[by1]));
        assert(b.has_point(pts[ex0]) && b.has_point(pts[ex1]));
        assert(b.has_point(pts[ey0]) && b.has_point(pts[ey1]));
    }
}

/// The extent of two points is the rectangle they span.
pub proof fn lemma_extent_pair(a: Point, b: Point)
    ensures
        extent(seq![a, b]) == Rect::spanning(a, b),
        Rect::spanning(a, b).wf(),
{
    let pts = seq![a, b];
    reveal_with_fuel(extent, 2);
    assert(pts.drop_last() =~= seq![a]);
    assert(pts.last() == b);
    assert(extent(pts.drop_last()) == (Rect { min: a, max: a }));
}

/// Calls `geo::BoundingRect::bounding_rect` on a `geo::LineString<i64>` made
/// of the given points. The crate returns nothing for an empty path, and
/// otherwise the rectangle from the least to the greatest coordinate met on
/// each axis.
#[verifier::external_body]
fn path_bounding_rect(pts: &Vec<Point>) -> (r: Option<Rect>)
    ensures
        r is None <==> pts@.len() == 0,
        r matches Some(b) ==> is_extent(pts@, b),
{
    let path: geo::LineString<i64> = pts.iter().map(|p| geo::Coord { x: p.x, y: p.y }).collect();
    path.bounding_rect().map(
        |b| Rect {
            min: Point { x: b.min().x, y: b.min().y },
            max: Point { x: b.max().x, y: b.max().y },
        },
    )
}

impl LineString {
    /// The path through the points given.
    pub fn new(points: Vec<Point>) -> (s: LineString)
        ensures
            s.points == points,
    {
        LineString { points }
    }

    /// The two paths go through the same points.
    pub open spec fn alike(&self, other: &LineString) -> bool {
        self.points@ == other.points@
    }
}

impl Clone for LineString {
    fn clone(&self) -> (c: Self)
        ensures
            c.alike(self),
    {
        let points = self.points.clone();
        assert(points@ =~= self.points@);
        LineString { points }
    }
}

impl Polygon {
    /// The area inside `exterior` and outside each of `interiors`.
    pub fn new(exterior: LineString, interiors: Vec<LineString>) -> (p: Polygon)
        ensures
            p.exterior == exterior,
            p.interiors == interiors,
    {
        Polygon { exterior, interiors }
    }

    /// The two polygons have the same rings.
    pub open spec fn alike(&self, other: &Polygon) -> bool {
        &&& self.exterior.alike(&other.exterior)
        &&& self.interiors@.len() == other.interiors@.len()
        &&& forall|i: int|
            0 <= i < self.interiors@.len() ==> (#[trigger] self.interiors@[i]).alike(
                &other.interiors@[i],
            )
    }
}

impl Clone for Polygon {
    fn clone(&self) -> (c: Self)
        ensures
            c.alike(self),
    {
        let exterior = self.exterior.clone();
        let interiors = self.interiors.clone();
        assert forall|i: int| 0 <= i < interiors@.len() implies (#[trigger] interiors@[i]).alike(
            &self.interiors@[i],
        ) by {
            assert(cloned::<LineString>(self.interiors@[i], interiors@[i]));
        }
        Polygon { exterior, interiors }
    }
}

impl Line {
    /// The segment from `start` to `end`.
    pub fn new(start: Point, end: Point) -> (l: Line)
        ensures
            l == (Line { start, end }),
    {
        Line { start, end }
    }
}

impl<'a> GeometryRef<'a> {
    /// The bounding rectangle of the shape: that of its points, of its outer
    /// ring for a polygon; none where a path or a ring has no point.
    pub open spec fn spec_bounding_rect(&self) -> Option<Rect> {
        match *self {
            GeometryRef::Point(p) => Some(Rect { min: *p, max: *p }),
            GeometryRef::Line(l) => Some(extent(seq![l.start, l.end])),
            GeometryRef::LineString(s) => if s.points@.len() == 0 {
                None
            } else {
                Some(extent(s.points@))
            },
            GeometryRef::Polygon(p) => if p.exterior.points@.len() == 0 {
                None
            } else {
                Some(extent(p.exterior.points@))
            },
            GeometryRef::Rect(r) => Some(extent(seq![r.min, r.max])),
        }
    }

    /// The bounding rectangle of the shape, if it has one.
    pub fn bounding_rect(&self) -> (r: Option<Rect>)
        ensures
            r == self.spec_bounding_rect(),
            r matches Some(b) ==> b.wf(),
    {
        match self {
            GeometryRef::Point(p) => Some(Rect { min: **p, max: **p }),
            GeometryRef::Line(l) => {
                proof {
                    lemma_extent_pair(l.start, l.end);
                }
                Some(Rect::new(l.start, l.end))
            },
            GeometryRef::LineString(s) => {
                let r = path_bounding_rect(&s.points);
                proof {
                    if s.points@.len() > 0 {
                        lemma_extent(s.points@);
                    }
                }
                r
            },
            GeometryRef::Polygon(p) => {
                let r = path_bounding_rect(&p.exterior.points);
                proof {
                    if p.exterior.points@.len() > 0 {
                        lemma_extent(p.exterior.points@);
                    }
                }
                r
            },
            GeometryRef::Rect(r) => {
                proof {
                    lemma_extent_pair(r.min, r.max);
                }
                Some(Rect::new(r.min, r.max))
            },
        }
    }
}

impl Clone for Geometry {
    fn clone(&self) -> (c: Self)
        ensures
            c.alike(self),
    {
        match self {
            Geometry::Point(d) => Geometry::Point(*d),
            Geometry::Line(d) => Geometry::Line(*d),
            Geometry::LineString(d) => Geometry::LineString(d.clone()),
            Geometry::Polygon(d) => Geometry::Polygon(d.clone()),
            Geometry::Rect(d) => Geometry::Rect(*d),
        }
    }
}

impl Geometry {
    /// The two shapes are of one kind and have the same points.
    pub open spec fn alike(&self, other: &Geometry) -> bool {
        match (*self, *other) {
            (Geometry::Point(a), Geometry::Point(b)) => a == b,
            (Geometry::Line(a), Geometry::Line(b)) => a == b,
            (Geometry::LineString(a), Geometry::LineString(b)) => a.alike(&b),
            (Geometry::Polygon(a), Geometry::Polygon(b)) => a.alike(&b),
            (Geometry::Rect(a), Geometry::Rect(b)) => a == b,
            _ => false,
        }
    }

    /// Shapes that are alike have the same bounding rectangle.
    pub proof fn lemma_alike_bounds(&self, other: &Geometry)
        requires
            self.alike(other),
        ensures
            self.spec_bounding_rect() == other.spec_bounding_rect(),
    {
    }

    /// The same shape, borrowed.
    pub open spec fn spec_as_geom(&self) -> GeometryRef<'_> {
        match self {
            Geometry::Point(d) => GeometryRef::Point(d),
            Geometry::Line(d) => GeometryRef::Line(d),
            Geometry::LineString(d) => GeometryRef::LineString(d),
            Geometry::Polygon(d) => GeometryRef::Polygon(d),
            Geometry::Rect(d) => GeometryRef::Rect(d),
        }
    }

    /// The same shape, borrowed.
    pub fn as_geom(&self) -> (g: GeometryRef<'_>)
        ensures
            g == self.spec_as_geom(),
    {
        match self {
            Geometry::Point(d) => GeometryRef::Point(d),
            Geometry::Line(d) => GeometryRef::Line(d),
            Geometry::LineString(d) => GeometryRef::LineString(d),
            Geometry::Polygon(d) => GeometryRef::Polygon(d),
            Geometry::Rect(d) => GeometryRef::Rect(d),
        }
    }

    /// The bounding rectangle of the shape; see `GeometryRef`.
    pub open spec fn spec_bounding_rect(&self) -> Option<Rect> {
        self.spec_as_geom().spec_bounding_rect()
    }

    /// The bounding rectangle of the shape, if it has one.
    pub fn bounding_rect(&self) -> (r: Option<Rect>)
        ensures
            r == self.spec_bounding_rect(),
            r matches Some(b) ==> b.wf(),
    {
        self.as_geom().bounding_rect()
    }
}

} // verus!
