use quadtree::{
    AsPoint, BoundsQuadTree, CalcMethod, Error, Node, Point, PointQuadTree, Rect,
};

/// Grid units per unit of the decimal coordinates that the cases are
/// written in.
const UNIT: f64 = 1000.0;

fn fx(v: f64) -> i64 {
    (v * UNIT).round() as i64
}

fn pt(x: f64, y: f64) -> Point {
    Point::new(fx(x), fx(y))
}

fn unit_square() -> Rect {
    Rect::new(pt(0.0, 0.0), pt(1.0, 1.0))
}

#[derive(Debug, Clone, Copy, PartialEq)]
struct MyData(f64, f64);

impl AsPoint for MyData {
    fn as_point(&self) -> Point {
        pt(self.0, self.1)
    }
}

fn sub<D>(node: &Node<D>, i: usize) -> &Node<D> {
    &node.nodes().unwrap()[i]
}

#[test]
fn x() {
    let origin = Point::new(0, 0);
    assert_eq!(origin.x_y(), (0, 0));
}

#[test]
fn subdivide_occurs_at_max_children() {
    let mut qt = PointQuadTree::from_bounds(unit_square(), CalcMethod::Euclidean);

    let pt1 = MyData(0.1, 0.1);
    let pt2 = MyData(0.2, 0.2);
    let pt3 = MyData(0.1, 0.8);

    let root = qt.root();
    assert_eq!(root.depth(), 0);
    assert_eq!(root.nodes().is_none(), true);
    assert_eq!(root.children().len(), 0);

    qt.insert(pt1).unwrap();
    qt.insert(pt1).unwrap();
    qt.insert(pt2).unwrap();
    qt.insert(pt3).unwrap();

    let root = qt.root();
    assert_eq!(root.nodes().is_none(), true);
    assert_eq!(root.children().len(), 4);

    qt.insert(pt2).unwrap();

    let root = qt.root();
    let nodes = root.nodes().unwrap();
    let n0 = &nodes[0];
    assert_eq!(root.children().len(), 0);
    assert_eq!(nodes.len(), 4);

    assert_eq!(n0.depth(), 1);
    assert_eq!(n0.nodes().is_none(), true);
    assert_eq!(n0.children().len(), 4);

    assert_eq!(nodes[1].children().len(), 0);
    assert_eq!(nodes[2].children().len(), 0);
    assert_eq!(nodes[3].children().len(), 1);
}

#[test]
fn can_change_max_depth_and_max_children_and_subdivide_stops_at_max_depth() {
    let mut qt = PointQuadTree::new(unit_square(), CalcMethod::Euclidean, 2, 2);

    let pt1 = MyData(0.1, 0.1);

    qt.insert(pt1).unwrap();
    qt.insert(pt1).unwrap();
    qt.insert(pt1).unwrap();

    let node = sub(sub(qt.root(), 0), 0);
    assert_eq!(qt.size(), 3);
    assert_eq!(node.depth(), 2);
    assert_eq!(node.children().len(), 3);
}

fn b(x: f64, y: f64, w: f64, h: f64) -> Rect {
    Rect::new(pt(x, y), pt(x + w, y + h))
}

#[test]
fn retrieve_grabs_all_in_overlapping_bounds() {
    let bounds = Rect::new(pt(0.0, 0.0), pt(8.0, 8.0));
    let mut qt = BoundsQuadTree::new(bounds, CalcMethod::Euclidean, 2, 2);

    let b1 = b(1.0, 1.0, 0.0, 0.0);
    let b2 = b(3.0, 3.0, 1.0, 1.0);
    let b3 = b(1.0, 1.0, 2.0, 2.0);
    let b4 = b(6.0, 2.0, 1.0, 4.0);
    let b5 = b(6.0, 1.0, 1.0, 1.0);
    let b6 = b(6.0, 5.0, 1.0, 1.0);

    qt.insert(b1.clone()).unwrap();
    qt.insert(b1.clone()).unwrap();
    qt.insert(b2.clone()).unwrap();
    qt.insert(b3.clone()).unwrap();
    qt.insert(b4.clone()).unwrap();
    qt.insert(b5.clone()).unwrap();
    qt.insert(b6.clone()).unwrap();

    let cmp = b(1.0, 5.0, 1.0, 1.0);
    assert_eq!(qt.retrieve(&cmp), vec![&b4]);

    let cmp = b(5.0, 5.0, 0.5, 0.5);
    assert_eq!(qt.retrieve(&cmp), vec![&b4, &b6]);

    let cmp = b(5.0, 3.0, 2.0, 2.0);
    assert_eq!(qt.retrieve(&cmp), vec![&b4, &b5, &b6]);

    let cmp = b(1.0, 1.0, 1.0, 2.0);
    assert_eq!(qt.retrieve(&cmp), vec![&b4, &b3, &b1, &b1, &b2]);
}

#[test]
fn create_empty_retrieve_inside_bounds_returns_empty_vec() {
    let qt: PointQuadTree<Point> = PointQuadTree::from_bounds(unit_square(), CalcMethod::Euclidean);
    let pt1 = pt(0.1, 0.1);

    assert_eq!(qt.size(), 0);
    assert_eq!(qt.retrieve(&pt1).len(), 0);
}

#[test]
fn create_and_retrieve_single_point_returns_vec_of_point() {
    let mut qt = PointQuadTree::from_bounds(unit_square(), CalcMethod::Euclidean);
    let pt1 = pt(0.1, 0.1);

    qt.insert(pt1.clone()).unwrap();

    assert_eq!(qt.size(), 1);
    assert_eq!(qt.retrieve(&pt1), vec![&pt1]);
}

#[test]
fn insert_out_of_bounds_doesnt_add_and_retrieve_out_of_bounds_yields_error() {
    let mut qt = PointQuadTree::from_bounds(unit_square(), CalcMethod::Euclidean);
    let pt1 = pt(0.1, 0.1);
    let pt2 = pt(2.0, 2.0);

    qt.insert(pt1.clone()).unwrap();
    let res = qt.insert(pt2.clone());

    assert_eq!(res, Err(Error::OutOfBounds));
    assert_eq!(qt.size(), 1);
    assert_eq!(qt.retrieve(&pt2).len(), 0);
}

#[test]
fn iterator_runs_preorder() {
    let mut qt = PointQuadTree::from_bounds(unit_square(), CalcMethod::Euclidean);
    let pt1 = pt(0.1, 0.1);
    let pt2 = pt(0.2, 0.2);
    let pt3 = pt(0.1, 0.8);

    qt.insert(pt3.clone()).unwrap();
    qt.insert(pt1.clone()).unwrap();
    qt.insert(pt2.clone()).unwrap();
    qt.insert(pt1.clone()).unwrap();
    qt.insert(pt2.clone()).unwrap();
    qt.insert(pt1.clone()).unwrap();

    assert_eq!(qt.size(), 6);

    let vec = qt.iter();
    assert_eq!(vec.len(), 6);
    assert_eq!(vec[0], &pt1);
    assert_eq!(vec[1], &pt1);
    assert_eq!(vec[2], &pt1);
    assert_eq!(vec[3], &pt2);
    assert_eq!(vec[4], &pt2);
    assert_eq!(vec[5], &pt3);

    let vec = qt.iter();
    assert_eq!(vec.len(), 6);
}
