use std::cell::RefCell;

use quadtree::geom::euclidean::{dist_euclidean, dist_sq_to_pt, span};
use quadtree::geom::math::{pt_in_rect, rect_in_rect};
use quadtree::geom::rect::half_way;
use quadtree::geom::spherical::dist_pt_rect;
use quadtree::geom::squared::{dist_sq_boxes, Squared};
use quadtree::node::{find_sub_node, find_sub_node_of_rect};
use quadtree::{
    BoundsQuadTree, CalcMethod, Dist, DistEuclidean, DistHaversine, Error, GeomCalc, Geometry,
    GeometryRef, Line, LineString, Node, Point, PointQuadTree, Polygon, Rect, SubNode, UNBOUNDED,
};

fn p(x: i64, y: i64) -> Point {
    Point::new(x, y)
}

fn r(x1: i64, y1: i64, x2: i64, y2: i64) -> Rect {
    Rect::new(p(x1, y1), p(x2, y2))
}

/// Squared planar distance between positions; it keeps what it was asked.
struct Recorder {
    asked: RefCell<Vec<String>>,
    no_number_at: Option<Point>,
}

impl Recorder {
    fn new() -> Self {
        Recorder { asked: RefCell::new(vec![]), no_number_at: None }
    }

    fn failing_at(at: Point) -> Self {
        Recorder { asked: RefCell::new(vec![]), no_number_at: Some(at) }
    }

    fn measure(&self, a: Point, b: Point) -> Dist {
        if Some(a) == self.no_number_at || Some(b) == self.no_number_at {
            UNBOUNDED
        } else {
            dist_sq_to_pt(a, b) as Dist
        }
    }
}

fn nearest_in(g: &GeometryRef<'_>, to: Point) -> Point {
    match g {
        GeometryRef::Point(q) => **q,
        GeometryRef::Rect(b) => {
            p(to.x.max(b.min().x).min(b.max().x), to.y.max(b.min().y).min(b.max().y))
        }
        _ => panic!("positions and rectangles only"),
    }
}

impl DistEuclidean for Recorder {
    fn dist_euclidean(&self, lhs: &GeometryRef<'_>, rhs: &GeometryRef<'_>) -> Dist {
        self.asked.borrow_mut().push(format!("{:?} {:?}", lhs, rhs));
        let a = nearest_in(lhs, p(0, 0));
        let b = nearest_in(rhs, a);
        let a = nearest_in(lhs, b);
        self.measure(a, b)
    }
}

impl DistHaversine for Recorder {
    fn dist_pt_pt(&self, p1: &Point, p2: &Point) -> Dist {
        self.asked.borrow_mut().push(format!("{:?} {:?}", p1, p2));
        self.measure(*p1, *p2)
    }

    fn dist_pt_line(&self, pt: &Point, line: &Line) -> Dist {
        self.asked.borrow_mut().push(format!("{:?} {:?}", pt, line));
        self.measure(*pt, line.start).min(self.measure(*pt, line.end))
    }
}

#[test]
fn the_midpoint_rounds_towards_the_lower_end() {
    assert_eq!(half_way(0, 8), 4);
    assert_eq!(half_way(0, 5), 2);
    assert_eq!(half_way(-3, 4), 0);
    assert_eq!(half_way(-5, -2), -4);
    assert_eq!(half_way(7, 7), 7);
    assert_eq!(half_way(i64::MIN, i64::MAX), -1);
    assert_eq!(r(0, 0, 8, 5).center(), p(4, 2));
}

#[test]
fn a_position_on_a_dividing_line_goes_top_or_left() {
    let b = r(0, 0, 8, 8);
    assert_eq!(find_sub_node(&b, &p(4, 4)), SubNode::TopLeft);
    assert_eq!(find_sub_node(&b, &p(5, 4)), SubNode::TopRight);
    assert_eq!(find_sub_node(&b, &p(4, 5)), SubNode::BottomLeft);
    assert_eq!(find_sub_node(&b, &p(5, 5)), SubNode::BottomRight);
    assert_eq!(find_sub_node(&b, &p(0, 0)), SubNode::TopLeft);
    assert_eq!(find_sub_node(&b, &p(8, 8)), SubNode::BottomRight);
    assert_eq!(SubNode::TopLeft.index(), 0);
    assert_eq!(SubNode::TopRight.index(), 1);
    assert_eq!(SubNode::BottomRight.index(), 2);
    assert_eq!(SubNode::BottomLeft.index(), 3);

    let mut qt = PointQuadTree::new(b, CalcMethod::Euclidean, 1, 1);
    qt.insert(p(4, 4)).unwrap();
    qt.insert(p(5, 4)).unwrap();
    let subs = qt.root().nodes().unwrap();
    assert_eq!(subs[0].children()[0].datum, p(4, 4));
    assert_eq!(subs[1].children()[0].datum, p(5, 4));
}

#[test]
fn the_boundary_counts_as_inside() {
    let b = r(0, 0, 8, 8);
    assert!(pt_in_rect(&b, &p(0, 8)));
    assert!(pt_in_rect(&b, &p(8, 0)));
    assert!(!pt_in_rect(&b, &p(9, 0)));
    assert!(!pt_in_rect(&b, &p(0, -1)));
    assert!(rect_in_rect(&b, &r(0, 0, 8, 8)));
    assert!(rect_in_rect(&b, &r(8, 8, 8, 8)));
    assert!(!rect_in_rect(&b, &r(7, 7, 9, 8)));
    assert!(!rect_in_rect(&r(1, 1, 2, 2), &b));

    let mut qt = PointQuadTree::from_bounds(b, CalcMethod::Euclidean);
    assert_eq!(qt.insert(p(8, 8)), Ok(()));
    assert_eq!(qt.insert(p(0, 8)), Ok(()));
    assert_eq!(qt.insert(p(9, 8)), Err(Error::OutOfBounds));
    assert_eq!(qt.size(), 2);
    assert_eq!(qt.retrieve(&p(9, 8)), Vec::<&Point>::new());

    let mut bt = BoundsQuadTree::from_bounds(b, CalcMethod::Euclidean);
    assert_eq!(bt.insert(r(0, 0, 8, 8)), Ok(()));
    assert_eq!(bt.insert(r(7, 7, 9, 8)), Err(Error::OutOfBounds));
    assert_eq!(bt.size(), 1);
    assert_eq!(bt.retrieve(&r(7, 7, 9, 8)), Vec::<&Rect>::new());
    assert_eq!(bt.retrieve(&r(8, 8, 8, 8)), vec![&r(0, 0, 8, 8)]);
}

#[test]
fn a_rectangle_is_spanned_by_corners_in_any_order() {
    let a = Rect::new(p(3, 1), p(-2, 5));
    assert_eq!((a.min(), a.max()), (p(-2, 1), p(3, 5)));
    assert_eq!(Rect::new(p(-2, 5), p(3, 1)), a);
    assert_eq!(p(3, 1).x_y(), (3, 1));
}

#[test]
fn bounding_rectangles_of_the_five_shapes() {
    let path = LineString::new(vec![p(3, 1), p(-2, 5), p(0, 0), p(1, 9)]);
    let ring = LineString::new(vec![p(0, 0), p(10, 0), p(10, 4), p(0, 0)]);
    let hole = LineString::new(vec![p(-50, -50), p(60, 60)]);
    assert_eq!(Geometry::Point(p(3, 4)).bounding_rect(), Some(r(3, 4, 3, 4)));
    assert_eq!(Geometry::Line(Line::new(p(5, 1), p(2, 7))).bounding_rect(), Some(r(2, 1, 5, 7)));
    assert_eq!(Geometry::LineString(path.clone()).bounding_rect(), Some(r(-2, 0, 3, 9)));
    assert_eq!(
        Geometry::Polygon(Polygon::new(ring, vec![hole])).bounding_rect(),
        Some(r(0, 0, 10, 4))
    );
    assert_eq!(Geometry::Rect(r(1, 2, 3, 4)).bounding_rect(), Some(r(1, 2, 3, 4)));
    assert_eq!(Geometry::LineString(LineString::new(vec![])).bounding_rect(), None);
    assert_eq!(
        Geometry::Polygon(Polygon::new(LineString::new(vec![]), vec![])).bounding_rect(),
        None
    );
    assert_eq!(GeometryRef::LineString(&path).bounding_rect(), Some(r(-2, 0, 3, 9)));
}

#[test]
fn a_shape_without_points_is_refused() {
    let mut bt = BoundsQuadTree::from_bounds(r(0, 0, 8, 8), CalcMethod::Euclidean);
    let nothing = Geometry::LineString(LineString::new(vec![]));
    assert_eq!(bt.insert(nothing.clone()), Err(Error::CannotMakeBbox));
    assert_eq!(bt.size(), 0);
    assert_eq!(bt.retrieve(&nothing), Vec::<&Geometry>::new());
    let path = Geometry::LineString(LineString::new(vec![p(1, 1), p(2, 3)]));
    assert_eq!(bt.insert(path.clone()), Ok(()));
    assert_eq!(bt.retrieve(&path), vec![&path]);
    assert_eq!(bt.root().children()[0].bbox, r(1, 1, 2, 3));
}

#[test]
fn a_box_that_straddles_a_dividing_line_is_stuck() {
    let mut bt = BoundsQuadTree::new(r(0, 0, 8, 8), CalcMethod::Euclidean, 2, 1);
    bt.insert(r(1, 1, 2, 2)).unwrap();
    bt.insert(r(3, 3, 5, 5)).unwrap();
    bt.insert(r(4, 1, 5, 2)).unwrap();
    let root = bt.root();
    assert_eq!(root.children().len(), 0);
    assert_eq!(
        root.stuck_children().iter().map(|e| e.datum).collect::<Vec<_>>(),
        vec![r(3, 3, 5, 5)]
    );
    assert_eq!(root.nodes().unwrap()[0].children()[0].datum, r(1, 1, 2, 2));
    assert_eq!(root.nodes().unwrap()[1].children()[0].datum, r(4, 1, 5, 2));
    assert_eq!(bt.retrieve(&r(3, 1, 4, 2)), vec![&r(3, 3, 5, 5), &r(1, 1, 2, 2)]);
    assert_eq!(bt.iter(), vec![&r(3, 3, 5, 5), &r(1, 1, 2, 2), &r(4, 1, 5, 2)]);
}

#[test]
fn a_box_goes_down_where_a_quarter_holds_it() {
    let mut bt = BoundsQuadTree::new(r(0, 0, 4, 4), CalcMethod::Euclidean, 2, 0);
    bt.insert(r(2, 2, 3, 3)).unwrap();
    let root = bt.root();
    assert_eq!(root.stuck_children().len(), 0);
    let quarter = &root.nodes().unwrap()[2];
    assert_eq!(*quarter.bounds(), r(2, 2, 4, 4));
    assert_eq!(quarter.stuck_children().len() + quarter.children().len(), 0);
    assert_eq!(quarter.nodes().unwrap()[0].children()[0].datum, r(2, 2, 3, 3));

    let b = r(0, 0, 5, 5);
    assert_eq!(find_sub_node_of_rect(&b, &r(2, 2, 3, 3)), SubNode::BottomRight);
    assert_eq!(find_sub_node_of_rect(&b, &r(2, 2, 2, 2)), SubNode::TopLeft);
    assert_eq!(find_sub_node_of_rect(&b, &r(1, 1, 3, 3)), SubNode::TopLeft);
    assert_eq!(find_sub_node_of_rect(&b, &r(1, 2, 4, 2)), SubNode::TopRight);
    assert_eq!(find_sub_node_of_rect(&b, &r(0, 2, 3, 4)), SubNode::BottomLeft);
    assert_eq!(
        find_sub_node_of_rect(&r(i64::MIN, i64::MIN, i64::MAX, i64::MAX), &r(0, 0, i64::MAX, i64::MAX)),
        SubNode::BottomRight
    );
}

#[test]
fn a_node_at_the_depth_limit_can_be_subdivided() {
    let mut n: Node<Point> = Node::new(r(0, 0, 5, 9), 0, 0, 4);
    n.subdivide();
    let subs = n.nodes().unwrap();
    assert_eq!(subs.len(), 4);
    assert_eq!(*subs[0].bounds(), r(0, 0, 2, 4));
    assert_eq!(*subs[1].bounds(), r(2, 0, 5, 4));
    assert_eq!(*subs[2].bounds(), r(2, 4, 5, 9));
    assert_eq!(*subs[3].bounds(), r(0, 4, 2, 9));
    for s in subs {
        assert_eq!((s.depth(), s.max_depth(), s.max_children()), (1, 0, 4));
        assert!(s.nodes().is_none() && s.children().is_empty() && s.stuck_children().is_empty());
    }
    assert_eq!((*n.bounds(), n.depth(), n.children().len()), (r(0, 0, 5, 9), 0, 0));
}

#[test]
fn the_dump_has_a_line_for_each_node() {
    let mut qt = PointQuadTree::new(r(-4, 0, 4, 8), CalcMethod::Euclidean, 1, 2);
    assert_eq!(qt.display(), "Point Quadtree Root:\n(-4, 0):\n");
    qt.insert(p(-1, 1)).unwrap();
    assert_eq!(qt.display(), "Point Quadtree Root:\n(-4, 0): 1 child\n");
    qt.insert(p(-1, 1)).unwrap();
    assert_eq!(qt.display(), "Point Quadtree Root:\n(-4, 0): 2 children\n");
    qt.insert(p(3, 7)).unwrap();
    assert_eq!(
        qt.display(),
        "Point Quadtree Root:\n(-4, 0):\n    (-4, 0): 2 children\n    (0, 0):\n    (0, 4): 1 child\n    (-4, 4):\n"
    );
    let mut bt = BoundsQuadTree::new(r(0, 0, 8, 8), CalcMethod::Euclidean, 1, 0);
    bt.insert(r(3, 3, 5, 5)).unwrap();
    assert_eq!(
        bt.display(),
        "Bounds Quadtree Root:\n(0, 0): 1 child\n    (0, 0):\n    (4, 0):\n    (4, 4):\n    (0, 4):\n"
    );
}

#[test]
fn every_error_has_its_name() {
    assert_eq!(Error::OutOfBounds.name(), "OutOfBounds");
    assert_eq!(Error::CannotMakeBbox.name(), "CannotMakeBbox");
    assert_eq!(Error::CannotFindSubNode.name(), "CannotFindSubNode");
    assert_eq!(Error::NoneInRadius.name(), "NoneInRadius");
    assert_eq!(Error::InvalidDistance.name(), "InvalidDistance");
    assert_eq!(Error::Empty.name(), "Empty");
    assert_eq!(Error::CannotCastInfinity.name(), "CannotCastInfinity");
    assert_eq!(Error::CalcMethodNotSet.name(), "CalcMethodNotSet");
    assert_eq!(Error::UnsupportedGeometry.name(), "UnsupportedGeometry");
}

#[test]
fn exact_planar_measures() {
    assert_eq!(span(-3, 4), 7);
    assert_eq!(span(4, -3), 7);
    assert_eq!(span(i64::MIN, i64::MAX), u64::MAX);
    assert_eq!(dist_sq_to_pt(p(0, 0), p(3, 4)), 25);
    assert_eq!(dist_sq_to_pt(p(-1, -1), p(-1, -1)), 0);
    assert_eq!(dist_sq_to_pt(p(i64::MIN, 0), p(i64::MAX, 0)), (u64::MAX as u128) * (u64::MAX as u128));
    assert_eq!(dist_sq_to_pt(p(i64::MIN, i64::MIN), p(i64::MAX, i64::MAX)), u128::MAX);
    assert_eq!(quadtree::geom::euclidean::test(), 8);
}

#[test]
fn rectangles_in_the_plane_are_measured_at_their_nearest_points() {
    let math = Recorder::new();
    let a = r(0, 0, 2, 2);
    let rects = |b: &Rect| dist_euclidean(&math, &GeometryRef::Rect(&a), &GeometryRef::Rect(b));
    assert_eq!(rects(&r(1, 1, 5, 5)), 0);
    assert_eq!(rects(&r(2, 2, 3, 3)), 0);
    assert_eq!(math.asked.borrow().len(), 0);
    assert_eq!(rects(&r(5, 1, 6, 9)), 9);
    assert_eq!(rects(&r(-1, 6, 1, 7)), 16);
    assert_eq!(rects(&r(5, 6, 7, 8)), 25);
    assert_eq!(rects(&r(-9, -9, -3, -4)), 25);
    assert_eq!(
        *math.asked.borrow(),
        vec![
            format!("{:?} {:?}", GeometryRef::Point(&p(2, 1)), GeometryRef::Point(&p(5, 1))),
            format!("{:?} {:?}", GeometryRef::Point(&p(0, 2)), GeometryRef::Point(&p(0, 6))),
            format!("{:?} {:?}", GeometryRef::Point(&p(2, 2)), GeometryRef::Point(&p(5, 6))),
            format!("{:?} {:?}", GeometryRef::Point(&p(0, 0)), GeometryRef::Point(&p(-3, -4))),
        ]
    );
    assert_eq!(dist_euclidean(&math, &GeometryRef::Point(&p(0, 0)), &GeometryRef::Rect(&a)), 0);
    assert_eq!(math.asked.borrow().len(), 5);
}

#[test]
fn a_position_on_the_sphere_is_measured_from_the_side_that_faces_it() {
    let math = Recorder::new();
    let b = r(0, 0, 4, 2);
    assert_eq!(dist_pt_rect(&math, &p(1, 1), &b), 0);
    assert_eq!(dist_pt_rect(&math, &p(4, 2), &b), 0);
    assert_eq!(math.asked.borrow().len(), 0);
    dist_pt_rect(&math, &p(-1, 9), &b);
    dist_pt_rect(&math, &p(5, -9), &b);
    dist_pt_rect(&math, &p(1, -1), &b);
    dist_pt_rect(&math, &p(1, 3), &b);
    assert_eq!(
        *math.asked.borrow(),
        vec![
            format!("{:?} {:?}", p(-1, 9), Line::new(p(0, 0), p(0, 2))),
            format!("{:?} {:?}", p(5, -9), Line::new(p(4, 0), p(4, 2))),
            format!("{:?} {:?}", p(1, -1), Line::new(p(0, 0), p(4, 0))),
            format!("{:?} {:?}", p(1, 3), Line::new(p(0, 2), p(4, 2))),
        ]
    );
}

#[test]
fn measuring_goes_by_the_geometry_chosen() {
    let math = Recorder::new();
    let probe = Geometry::Point(p(0, 0));
    let target = p(3, 4);
    let calc = |m| GeomCalc::new(probe.as_geom(), m, &math);
    assert_eq!(
        calc(CalcMethod::NotSet).dist_geom(&GeometryRef::Point(&target)),
        Err(Error::CalcMethodNotSet)
    );
    assert_eq!(calc(CalcMethod::NotSet).dist_bbox(&r(0, 0, 1, 1)), Err(Error::CalcMethodNotSet));
    assert_eq!(math.asked.borrow().len(), 0);
    assert_eq!(calc(CalcMethod::Euclidean).dist_geom(&GeometryRef::Point(&target)), Ok(25));
    assert_eq!(calc(CalcMethod::Spherical).dist_geom(&GeometryRef::Point(&target)), Ok(25));
    assert_eq!(calc(CalcMethod::Spherical).dist_bbox(&r(-1, -1, 1, 1)), Ok(0));
    let path = LineString::new(vec![p(1, 1)]);
    assert_eq!(
        calc(CalcMethod::Spherical).dist_geom(&GeometryRef::LineString(&path)),
        Err(Error::UnsupportedGeometry)
    );
}

fn small_tree(method: CalcMethod) -> PointQuadTree<Point> {
    let mut qt = PointQuadTree::new(r(0, 0, 8, 8), method, 2, 1);
    for q in [p(1, 1), p(6, 6), p(7, 1), p(2, 6)] {
        qt.insert(q).unwrap();
    }
    qt
}

#[test]
fn searches_say_why_they_found_nothing() {
    let math = Recorder::new();
    let inside = Geometry::Point(p(3, 3));
    let outside = Geometry::Point(p(9, 9));
    let empty: PointQuadTree<Point> = PointQuadTree::from_bounds(r(0, 0, 8, 8), CalcMethod::Euclidean);
    assert_eq!(empty.find(&inside, &math), Err(Error::Empty));
    assert_eq!(empty.find(&outside, &math), Err(Error::OutOfBounds));
    assert_eq!(empty.knn(&inside, &math, 3), Ok(vec![]));
    assert_eq!(empty.knn(&outside, &math, 3), Err(Error::OutOfBounds));
    assert!(empty.sorted(&inside, &math).next().is_none());

    let qt = small_tree(CalcMethod::Euclidean);
    assert_eq!(qt.find(&outside, &math), Err(Error::OutOfBounds));
    assert_eq!(qt.find_r(&inside, &math, 7), Err(Error::NoneInRadius));
    assert_eq!(qt.find_r(&inside, &math, 8), Ok((&p(1, 1), 8)));
    assert_eq!(qt.find(&inside, &math), Ok((&p(1, 1), 8)));
    assert_eq!(qt.knn_r(&inside, &math, 4, 7), Ok(vec![]));
    assert!(qt.sorted(&outside, &math).next().is_none());

    let unset = small_tree(CalcMethod::NotSet);
    assert_eq!(unset.calc_method(), CalcMethod::NotSet);
    assert_eq!(unset.find_r(&inside, &math, 100), Err(Error::CalcMethodNotSet));
    assert_eq!(unset.knn_r(&inside, &math, 2, 100), Err(Error::CalcMethodNotSet));
}

#[test]
fn a_distance_that_is_no_number_stops_knn_and_is_passed_over_by_the_walk() {
    let math = Recorder::failing_at(p(6, 6));
    let probe = Geometry::Point(p(3, 3));
    let qt = small_tree(CalcMethod::Euclidean);
    assert_eq!(qt.knn(&probe, &math, 4), Err(Error::InvalidDistance));
    let mut walk = qt.sorted(&probe, &math);
    let mut found = vec![];
    while let Some((q, d)) = walk.next() {
        found.push((*q, d));
    }
    assert_eq!(found, vec![(p(1, 1), 8), (p(2, 6), 10), (p(7, 1), 20)]);
    assert_eq!(qt.find(&probe, &Recorder::new()), Ok((&p(1, 1), 8)));
}

#[test]
fn squared_distances_are_exact() {
    let at = |x, y| p(x, y);
    let pts = |a: Point, b: Point| Squared.dist_euclidean(&GeometryRef::Point(&a), &GeometryRef::Point(&b));
    assert_eq!(pts(at(0, 0), at(3, 4)), 25);
    assert_eq!(pts(at(-2, 7), at(-2, 7)), 0);
    assert_eq!(pts(at(i64::MIN, 0), at(i64::MAX, 0)), UNBOUNDED - 1);
    assert_eq!(dist_sq_boxes(&r(0, 0, 2, 2), &r(5, 6, 7, 8)), 25);
    assert_eq!(dist_sq_boxes(&r(0, 0, 2, 2), &r(1, 1, 9, 9)), 0);
    assert_eq!(dist_sq_boxes(&r(0, 0, 2, 2), &r(-4, 1, -3, 1)), 9);
    let b = r(2, 2, 0, 0);
    assert_eq!(Squared.dist_euclidean(&GeometryRef::Point(&at(5, 1)), &GeometryRef::Rect(&b)), 9);
    let l = Line::new(at(0, 0), at(1, 1));
    assert_eq!(Squared.dist_euclidean(&GeometryRef::Point(&at(5, 1)), &GeometryRef::Line(&l)), UNBOUNDED);
    assert_eq!(Squared.dist_pt_pt(&at(0, 0), &at(1, 1)), UNBOUNDED);
    assert_eq!(Squared.dist_pt_line(&at(0, 0), &l), UNBOUNDED);

    let qt = small_tree(CalcMethod::Euclidean);
    let probe = Geometry::Point(p(3, 3));
    assert_eq!(qt.find(&probe, &Squared), Ok((&p(1, 1), 8)));
    assert_eq!(
        qt.knn(&probe, &Squared, 3),
        Ok(vec![(&p(1, 1), 8), (&p(2, 6), 10), (&p(6, 6), 18)])
    );
    let sphere = small_tree(CalcMethod::Spherical);
    assert_eq!(sphere.knn(&probe, &Squared, 3), Err(Error::InvalidDistance));
}
