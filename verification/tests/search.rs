use approx::AbsDiffEq;
use geo::{Distance, Euclidean};
use quadtree::geom::spherical::{dist_haversine, dist_rect_rect};
use quadtree::{
    AsPoint, BoundsQuadTree, CalcMethod, Dist, DistEuclidean, DistHaversine, Error, Geometry,
    GeometryRef, Line, LineString, Point, PointQuadTree, Rect, UNBOUNDED,
};

/// Grid units per unit of the decimal coordinates that the cases are
/// written in.
const UNIT: f64 = 1000.0;

fn fx(v: f64) -> i64 {
    (v * UNIT).round() as i64
}

fn unfx(v: i64) -> f64 {
    v as f64 / UNIT
}

fn pt(x: f64, y: f64) -> Point {
    Point::new(fx(x), fx(y))
}

fn rect(x1: f64, y1: f64, x2: f64, y2: f64) -> Rect {
    Rect::new(pt(x1, y1), pt(x2, y2))
}

fn probe(x: f64, y: f64) -> Geometry {
    Geometry::Point(pt(x, y))
}

/// A distance as the trees order it.
fn key(d: f64) -> Dist {
    if d.is_nan() || d.is_infinite() {
        UNBOUNDED
    } else if d <= 0.0 {
        0
    } else {
        d.to_bits()
    }
}

/// The number behind a distance that a tree returned.
fn num(d: Dist) -> f64 {
    f64::from_bits(d)
}

fn close(a: f64, b: f64) -> bool {
    a.abs_diff_eq(&b, f64::default_epsilon())
}

fn coord(p: &Point, scale: fn(f64) -> f64) -> geo::Coord<f64> {
    geo::Coord { x: scale(unfx(p.x)), y: scale(unfx(p.y)) }
}

fn path(ps: &[Point], scale: fn(f64) -> f64) -> geo::LineString<f64> {
    ps.iter().map(|p| coord(p, scale)).collect()
}

fn shape(g: &GeometryRef<'_>, scale: fn(f64) -> f64) -> geo::Geometry<f64> {
    match g {
        GeometryRef::Point(p) => geo::Geometry::Point(geo::Point(coord(p, scale))),
        GeometryRef::Line(l) => {
            geo::Geometry::Line(geo::Line::new(coord(&l.start, scale), coord(&l.end, scale)))
        }
        GeometryRef::LineString(s) => geo::Geometry::LineString(path(&s.points, scale)),
        GeometryRef::Polygon(p) => geo::Geometry::Polygon(geo::Polygon::new(
            path(&p.exterior.points, scale),
            p.interiors.iter().map(|r| path(&r.points, scale)).collect(),
        )),
        GeometryRef::Rect(r) => {
            geo::Geometry::Rect(geo::Rect::new(coord(&r.min, scale), coord(&r.max, scale)))
        }
    }
}

fn same(v: f64) -> f64 {
    v
}

fn radians(v: f64) -> f64 {
    v.to_radians()
}

fn haversine(p1: geo::Point<f64>, p2: geo::Point<f64>) -> f64 {
    let theta1 = p1.y();
    let theta2 = p2.y();
    let delta_theta = p2.y() - p1.y();
    let delta_lambda = p2.x() - p1.x();
    let a = (delta_theta / 2.0).sin().powi(2)
        + theta1.cos() * theta2.cos() * (delta_lambda / 2.0).sin().powi(2);
    2.0 * a.sqrt().asin()
}

fn haversine_to_line(pt: geo::Point<f64>, line: geo::Line<f64>) -> f64 {
    let (x, y) = pt.x_y();
    let (x1, y1) = line.start_point().x_y();
    let (x2, y2) = line.end_point().x_y();
    let (a, b, c, d) = (x - x1, y - y1, x2 - x1, y2 - y1);
    let dot = a * c + b * d;
    let len_sq = c * c + d * d;
    let param = if len_sq == 0.0 { -1.0 } else { dot / len_sq };
    if param < 0.0 {
        haversine(pt, line.start_point())
    } else if param > 1.0 {
        haversine(pt, line.end_point())
    } else {
        haversine(pt, geo::Point::new(x1 + param * c, y1 + param * d))
    }
}

/// The formulas of both geometries, on coordinates in grid units that
/// `scale` turns into the units of the formulas.
struct Formulas {
    scale: fn(f64) -> f64,
}

impl DistEuclidean for Formulas {
    fn dist_euclidean(&self, lhs: &GeometryRef<'_>, rhs: &GeometryRef<'_>) -> Dist {
        key(Euclidean::distance(&shape(lhs, self.scale), &shape(rhs, self.scale)))
    }
}

impl DistHaversine for Formulas {
    fn dist_pt_pt(&self, p1: &Point, p2: &Point) -> Dist {
        key(haversine(geo::Point(coord(p1, self.scale)), geo::Point(coord(p2, self.scale))))
    }

    fn dist_pt_line(&self, pt: &Point, line: &Line) -> Dist {
        key(haversine_to_line(
            geo::Point(coord(pt, self.scale)),
            geo::Line::new(coord(&line.start, self.scale), coord(&line.end, self.scale)),
        ))
    }
}

const PLAIN: Formulas = Formulas { scale: same };
const DEGREES: Formulas = Formulas { scale: radians };

#[derive(Debug, Clone, PartialEq)]
struct MyDatum {
    id: usize,
    meta: (),
    location: (f64, f64),
}

impl AsPoint for MyDatum {
    fn as_point(&self) -> Point {
        pt(self.location.0, self.location.1)
    }
}

fn datum(id: usize, x: f64, y: f64) -> MyDatum {
    MyDatum { id, meta: (), location: (x, y) }
}

#[test]
fn euclidean_point_example() {
    let bounds = rect(0.0, 0.0, 32.0, 32.0);
    let mut qt = PointQuadTree::from_bounds(bounds, CalcMethod::Euclidean);

    let data = vec![
        datum(0, 0.0, 0.0),
        datum(1, 3.0, 5.0),
        datum(2, 7.0, 2.0),
        datum(3, 2.0, 7.0),
        datum(4, 1.0, 1.0),
        datum(5, 11.0, 13.0),
        datum(6, 9.0, 8.0),
        datum(7, 5.0, 5.0),
        datum(8, 1.0, 2.0),
    ];

    for d in &data {
        qt.insert(d.clone()).unwrap();
    }
    assert_eq!(qt.size(), 9);

    let res = qt.insert(datum(999, -1.0, -1.0));
    assert_eq!(res, Err(Error::OutOfBounds));
    assert_eq!(qt.size(), 9);

    let str = qt.display();
    assert!(str.contains("Point Quadtree"));

    let res: Vec<_> = qt.retrieve(&datum(42, 12.0, 12.0));
    assert_eq!(res, vec![&data[5]]);

    let res = qt
        .retrieve(&datum(42, 0.5, 0.5))
        .into_iter()
        .filter(|d| d.id >= 2)
        .map(|d| d.id);
    assert_eq!(res.collect::<Vec<_>>(), vec![4, 8]);

    let res: Vec<_> = qt.iter();
    let cmp = vec![
        &data[0], &data[4], &data[8], &data[2], &data[7], &data[1], &data[3], &data[6], &data[5],
    ];
    assert_eq!(res, cmp);

    let cmp = probe(0.0, 0.0);
    let (res, d) = qt.find(&cmp, &PLAIN).unwrap();
    assert_eq!(res, &data[0]);
    assert!(close(num(d), 0.0));

    let cmp = probe(3.0, 5.0);
    let (res, d) = qt.find(&cmp, &PLAIN).unwrap();
    assert_eq!(res, &data[1]);
    assert!(close(num(d), 0.0));

    let cmp = probe(12.0, 14.0);
    let (res, d) = qt.find(&cmp, &PLAIN).unwrap();
    assert_eq!(res, &data[5]);
    assert!(close(num(d), 2.0_f64.sqrt()));

    let res = qt.find_r(&cmp, &PLAIN, key(0.5));
    assert_eq!(res, Err(Error::NoneInRadius));

    let cmp = probe(0.0, 0.0);
    let res: Vec<MyDatum> = qt
        .knn(&cmp, &PLAIN, 3)
        .unwrap()
        .iter()
        .map(|(d, _)| (*d).clone())
        .collect();
    assert_eq!(res, vec![data[0].clone(), data[4].clone(), data[8].clone()]);

    let cmp = probe(14.0, 14.0);
    let res = qt.knn_r(&cmp, &PLAIN, 3, key(0.5)).unwrap();
    assert_eq!(res, vec![]);

    let cmp = probe(32.0, 32.0);
    let mut walk = qt.sorted(&cmp, &PLAIN);
    let mut ids = vec![];
    while let Some((d, _)) = walk.next() {
        ids.push(d.id);
    }
    assert_eq!(ids, vec![5, 6, 7, 2, 3, 1, 8, 4, 0]);
}

#[test]
fn spherical_point_example() {
    let bounds = rect(0.0, 0.0, 90.0, 90.0);
    let mut qt = PointQuadTree::new(bounds, CalcMethod::Spherical, 4, 2);

    let data = vec![pt(0.0, 0.0), pt(0.0, 50.0), pt(45.0, 45.0), pt(39.0, 42.0), pt(21.0, 32.0)];

    for d in &data {
        qt.insert(d.clone()).unwrap();
    }

    let cmp = probe(22.5, 0.0);
    let (res, d) = qt.find(&cmp, &DEGREES).unwrap();
    assert_eq!(res, &data[0]);
    assert!(close(num(d), std::f64::consts::FRAC_PI_8));

    let cmp = probe(45.0, 67.5);
    let (res, d) = qt.find(&cmp, &DEGREES).unwrap();
    assert_eq!(res, &data[2]);
    assert!(close(num(d), std::f64::consts::FRAC_PI_8));
}

fn five_points() -> (PointQuadTree<Point>, [Point; 4]) {
    let mut qt = PointQuadTree::new(rect(0.0, 0.0, 1.0, 1.0), CalcMethod::NotSet, 2, 2);

    let p1 = pt(0.4, 0.2);
    let p2 = pt(0.2, 0.4);
    let p3 = pt(0.1, 0.1);
    let p4 = pt(0.8, 0.8);

    qt.insert(p1.clone()).unwrap();
    qt.insert(p2.clone()).unwrap();
    qt.insert(p3.clone()).unwrap();
    qt.insert(p4.clone()).unwrap();
    qt.insert(p4.clone()).unwrap();
    (qt, [p1, p2, p3, p4])
}

fn with_method(method: CalcMethod) -> (PointQuadTree<Point>, [Point; 4]) {
    let mut qt = PointQuadTree::new(rect(0.0, 0.0, 1.0, 1.0), method, 2, 2);
    let (_, ps) = five_points();
    for p in [ps[0], ps[1], ps[2], ps[3], ps[3]] {
        qt.insert(p).unwrap();
    }
    (qt, ps)
}

#[test]
fn find_returns_closest_in_eucildean_for_point_qt() {
    let (qt, ps) = with_method(CalcMethod::Euclidean);

    let cmp = probe(0.4, 0.39);
    let (p, d) = qt.find(&cmp, &PLAIN).unwrap();
    assert_eq!((p, num(d)), (&ps[0], 0.19));
}

#[test]
fn find_returns_closest_in_spherical_for_point_qt() {
    let (qt, ps) = with_method(CalcMethod::Spherical);

    let cmp = probe(0.4, 0.39);
    let (p, d) = qt.find(&cmp, &PLAIN).unwrap();
    assert_eq!(p, &ps[1]);
    assert!(close(num(d), haversine(geo::Point::new(0.4, 0.39), geo::Point::new(0.2, 0.4))));
}

fn line(x1: f64, y1: f64, x2: f64, y2: f64) -> Line {
    Line::new(pt(x1, y1), pt(x2, y2))
}

#[test]
fn find_returns_closest_in_euclidean_for_segments_in_bounds_qt() {
    let mut qt = BoundsQuadTree::new(rect(0.0, 0.0, 1.0, 1.0), CalcMethod::Euclidean, 2, 2);

    let d1 = line(0.3, 0.0, 0.0, 0.4);
    let d2 = line(0.0, 0.0, 0.0, 0.4);
    let d3 = line(0.0, 0.0, 0.3, 0.0);
    let d4 = line(0.6, 0.0, 0.0, 0.8);
    let d5 = line(0.9, 0.8, 0.9, 0.9);

    qt.insert(d1.clone()).unwrap();
    qt.insert(d2.clone()).unwrap();
    qt.insert(d3.clone()).unwrap();
    qt.insert(d4.clone()).unwrap();
    qt.insert(d5.clone()).unwrap();

    let cmp = probe(0.05, 0.1);
    let (datum, dist) = qt.find(&cmp, &PLAIN).unwrap();
    assert_eq!((datum, num(dist)), (&d2, 0.05));

    let cmp = probe(0.1, 0.2);
    let cmp_dist = Euclidean::distance(
        &geo::Point::new(0.1, 0.2),
        &geo::Line::new((0.3, 0.0), (0.0, 0.4)),
    );
    let (datum, dist) = qt.find(&cmp, &PLAIN).unwrap();
    assert!(close(num(dist), cmp_dist));
    assert_eq!(datum, &d1);

    let cmp = probe(0.8, 0.8);
    let (datum, dist) = qt.find(&cmp, &PLAIN).unwrap();
    assert!(close(num(dist), 0.1));
    assert_eq!(datum, &d5);
}

#[test]
fn find_returns_closest_in_speherical_in_bounds_qt() {
    let mut qt = BoundsQuadTree::new(rect(-1.0, -1.0, 1.0, 1.0), CalcMethod::Spherical, 2, 2);

    let d1 = line(-0.4, 0.0, -0.4, -0.4);
    let d2 = line(0.0, -0.4, -0.4, -0.4);

    qt.insert(d1.clone()).unwrap();
    qt.insert(d2.clone()).unwrap();

    let cmp = probe(-0.2, -0.2);
    let dist_cmp = haversine(geo::Point::new(-0.2, -0.2), geo::Point::new(-0.4, -0.2));
    let (datum, dist) = qt.find(&cmp, &PLAIN).unwrap();

    assert!(close(num(dist), dist_cmp));
    assert_eq!(datum, &d1);
}

fn four_points() -> (PointQuadTree<Point>, [Point; 3]) {
    let mut qt = PointQuadTree::new(rect(0.0, 0.0, 8.0, 8.0), CalcMethod::Euclidean, 2, 2);

    let p1 = pt(2.0, 2.0);
    let p2 = pt(3.0, 3.0);
    let p3 = pt(6.0, 6.0);

    qt.insert(p1.clone()).unwrap();
    qt.insert(p1.clone()).unwrap();
    qt.insert(p2.clone()).unwrap();
    qt.insert(p3.clone()).unwrap();
    (qt, [p1, p2, p3])
}

#[test]
fn knn_on_point_qt_returns_k_nodes_in_dist_order() {
    let (qt, [p1, p2, p3]) = four_points();

    let cmp = probe(6.0, 5.0);
    let res = qt.knn_r(&cmp, &PLAIN, 3, key(f64::INFINITY)).unwrap();

    assert_eq!(res.len(), 3);
    assert_eq!(res[0].0.x_y(), p3.x_y());
    assert_eq!(num(res[0].1), 1.0);
    assert_eq!(res[1].0.x_y(), p2.x_y());
    assert!(close(num(res[1].1), 13.0f64.sqrt()));
    assert_eq!(res[2].0.x_y(), p1.x_y());
    assert!(close(num(res[2].1), 5.0));
}

#[test]
fn knn_on_point_qt_stops_at_r() {
    let (qt, [_p1, p2, p3]) = four_points();

    let cmp = probe(6.0, 5.0);
    let res = qt.knn_r(&cmp, &PLAIN, 3, key(4.0)).unwrap();

    assert_eq!(res.len(), 2);
    assert_eq!(res[0].0.x_y(), p3.x_y());
    assert_eq!(num(res[0].1), 1.0);
    assert_eq!(res[1].0.x_y(), p2.x_y());
    assert!(close(num(res[1].1), 13.0f64.sqrt()));
}

#[test]
fn searches_fail_where_no_geometry_was_chosen() {
    let (qt, _) = five_points();
    let cmp = probe(0.4, 0.39);
    assert_eq!(qt.find(&cmp, &PLAIN), Err(Error::CalcMethodNotSet));
    assert_eq!(qt.knn(&cmp, &PLAIN, 2), Err(Error::CalcMethodNotSet));
    assert!(qt.sorted(&cmp, &PLAIN).next().is_none());
}

fn sphere_rects(b1: &Rect, b2: &Rect) -> f64 {
    let d = dist_haversine(&PLAIN, &GeometryRef::Rect(b1), &GeometryRef::Rect(b2)).unwrap();
    assert_eq!(d, dist_rect_rect(&PLAIN, b1, b2));
    num(d)
}

fn sphere_points(a: (f64, f64), b: (f64, f64)) -> f64 {
    num(dist_haversine(&PLAIN, &GeometryRef::Point(&pt(a.0, a.1)), &GeometryRef::Point(&pt(b.0, b.1)))
        .unwrap())
}

#[test]
fn rect_dist_works_for_simple_rects() {
    let b1 = rect(0.1, -0.1, 0.5, 0.4);

    let b2 = rect(0.2, 0.0, 1.0, 0.8);
    assert_eq!(sphere_rects(&b1, &b2), 0.0);

    let b2 = rect(0.5, 0.0, 0.6, 0.2);
    assert_eq!(sphere_rects(&b1, &b2), 0.0);

    let b2 = rect(0.1, 0.6, 0.3, 0.8);
    assert!(close(sphere_rects(&b1, &b2), 0.2));

    let b2 = rect(0.1, -0.4, 0.3, -0.5);
    assert!(close(sphere_rects(&b1, &b2), 0.3));

    let b2 = rect(0.6, 0.2, 0.8, 0.6);
    let d = sphere_points((0.5, 0.4), (0.6, 0.4));
    assert!(close(sphere_rects(&b1, &b2), d));

    let b2 = rect(0.7, -0.2, 0.8, -0.1);
    let d = sphere_points((0.5, -0.1), (0.7, -0.1));
    assert!(close(sphere_rects(&b1, &b2), d));

    let b2 = rect(-0.2, 0.0, -0.1, 0.3);
    let d = sphere_points((0.1, 0.3), (-0.1, 0.3));
    assert!(close(sphere_rects(&b1, &b2), d));

    let b2 = rect(-0.2, -0.3, -0.1, -0.2);
    let d = sphere_points((0.1, -0.1), (-0.1, -0.2));
    assert!(close(sphere_rects(&b1, &b2), d));

    let b2 = rect(0.8, -0.4, 0.9, -0.3);
    let d = sphere_points((0.5, -0.1), (0.8, -0.3));
    assert!(close(sphere_rects(&b1, &b2), d));

    let b2 = rect(0.9, 0.6, 1.0, 0.7);
    let d = sphere_points((0.5, 0.4), (0.9, 0.6));
    assert!(close(sphere_rects(&b1, &b2), d));

    let b2 = rect(-0.8, 0.7, -0.6, 0.8);
    let d = sphere_points((0.1, 0.4), (-0.6, 0.7));
    assert!(close(sphere_rects(&b1, &b2), d));
}

#[test]
fn rect_dist_works_when_on_other_side_of_antimeridian() {
    let b1 = rect(2.9, 0.0, 3.0, 0.4);

    let b2 = rect(-3.0, 0.1, -2.9, 0.3);
    let d = sphere_points((3.0, 0.3), (-3.0, 0.3));
    assert!(close(sphere_rects(&b1, &b2), d));

    let b2 = rect(-2.8, -0.4, -2.7, -0.2);
    let d = sphere_points((3.0, 0.0), (-2.8, 0.2));
    assert!(close(sphere_rects(&b1, &b2), d));
}

#[test]
fn sphere_measures_no_pair_with_a_path() {
    let path = LineString::new(vec![pt(0.0, 0.0), pt(0.1, 0.1)]);
    let p = pt(0.2, 0.2);
    assert_eq!(
        dist_haversine(&PLAIN, &GeometryRef::Point(&p), &GeometryRef::LineString(&path)),
        Err(Error::UnsupportedGeometry)
    );
}
