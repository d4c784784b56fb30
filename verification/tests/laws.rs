use quadtree::geom::squared::{find_squared, Squared};
use quadtree::{
    BoundsQuadTree, CalcMethod, Dist, DistEuclidean, Entry, Geometry, GeometryRef, Node, Point,
    PointQuadTree, Rect, UNBOUNDED,
};

fn scattered() -> Vec<Point> {
    let mut out = vec![];
    let mut s: i64 = 7;
    for _ in 0..200 {
        s = (s * 1103515245 + 12345) % 2147483648;
        let x = s % 1000;
        s = (s * 1103515245 + 12345) % 2147483648;
        let y = s % 1000;
        out.push(Point::new(x, y));
    }
    out
}

fn point_tree() -> PointQuadTree<Point> {
    let bounds = Rect::new(Point::new(0, 0), Point::new(999, 999));
    let mut qt = PointQuadTree::new(bounds, CalcMethod::Euclidean, 5, 3);
    for p in scattered() {
        qt.insert(p).unwrap();
    }
    qt
}

fn boxes() -> Vec<Rect> {
    let ps = scattered();
    ps.chunks(2)
        .map(|c| {
            let w = c[1].x % 60;
            let h = c[1].y % 60;
            Rect::new(c[0], Point::new((c[0].x + w).min(999), (c[0].y + h).min(999)))
        })
        .collect()
}

fn bounds_tree() -> BoundsQuadTree<Rect> {
    let bounds = Rect::new(Point::new(0, 0), Point::new(999, 999));
    let mut qt = BoundsQuadTree::new(bounds, CalcMethod::Euclidean, 4, 2);
    for b in boxes() {
        qt.insert(b).unwrap();
    }
    qt
}

fn each_node<'a, D>(node: &'a Node<D>, out: &mut Vec<&'a Node<D>>) {
    out.push(node);
    if let Some(subs) = node.nodes() {
        for s in subs {
            each_node(s, out);
        }
    }
}

fn holds(outer: &Rect, inner: &Rect) -> bool {
    outer.min().x <= inner.min().x
        && inner.max().x <= outer.max().x
        && outer.min().y <= inner.min().y
        && inner.max().y <= outer.max().y
}

#[test]
fn quarters_tile_their_node() {
    let qt = point_tree();
    let mut nodes = vec![];
    each_node(qt.root(), &mut nodes);
    let mut split = 0;
    for n in nodes {
        if let Some(subs) = n.nodes() {
            split += 1;
            let b = n.bounds();
            let mx = b.min().x + (b.max().x - b.min().x) / 2;
            let my = b.min().y + (b.max().y - b.min().y) / 2;
            assert_eq!(subs.len(), 4);
            assert_eq!(*subs[0].bounds(), Rect::new(b.min(), Point::new(mx, my)));
            assert_eq!(
                *subs[1].bounds(),
                Rect::new(Point::new(mx, b.min().y), Point::new(b.max().x, my))
            );
            assert_eq!(*subs[2].bounds(), Rect::new(Point::new(mx, my), b.max()));
            assert_eq!(
                *subs[3].bounds(),
                Rect::new(Point::new(b.min().x, my), Point::new(mx, b.max().y))
            );
            for s in subs {
                assert!(holds(b, s.bounds()));
                assert_eq!(s.depth(), n.depth() + 1);
                assert_eq!(s.max_depth(), n.max_depth());
                assert_eq!(s.max_children(), n.max_children());
            }
        }
    }
    assert!(split > 10);
}

fn keeps_to_the_limit<D>(root: &Node<D>) {
    let mut nodes = vec![];
    each_node(root, &mut nodes);
    for n in nodes {
        if n.nodes().is_none() && n.depth() < n.max_depth() {
            assert!(n.children().len() <= n.max_children());
        }
        if n.nodes().is_some() {
            assert_eq!(n.children().len(), 0);
            assert!(n.depth() < n.max_depth());
        }
    }
}

#[test]
fn nodes_above_the_depth_limit_keep_to_the_limit() {
    keeps_to_the_limit(point_tree().root());
    keeps_to_the_limit(bounds_tree().root());
}

#[test]
fn size_counts_what_the_tree_holds() {
    let qt = point_tree();
    assert_eq!(qt.size(), 200);
    assert_eq!(qt.iter().len(), 200);
    let bt = bounds_tree();
    assert_eq!(bt.size(), 100);
    assert_eq!(bt.iter().len(), 100);
}

#[test]
fn each_position_lives_in_the_one_node_it_falls_in() {
    let qt = point_tree();
    let mut nodes = vec![];
    each_node(qt.root(), &mut nodes);
    let mut seen = 0;
    for n in &nodes {
        assert_eq!(n.stuck_children().len(), 0);
        for e in n.children() {
            seen += 1;
            assert!(n.nodes().is_none());
            assert_eq!(e.bbox, Rect::new(e.datum, e.datum));
            assert!(holds(n.bounds(), &e.bbox));
            let found = qt.retrieve_at(&e.datum);
            assert_eq!(found, n.children().iter().map(|c| &c.datum).collect::<Vec<_>>());
        }
    }
    assert_eq!(seen, 200);
}

fn fits_a_quarter(n: &Node<Rect>, e: &Entry<Rect>) -> bool {
    n.nodes().unwrap().iter().any(|s| holds(s.bounds(), &e.bbox))
}

#[test]
fn each_box_is_stuck_or_a_child_of_a_node_without_quarters() {
    let bt = bounds_tree();
    let mut nodes = vec![];
    each_node(bt.root(), &mut nodes);
    let (mut stuck, mut direct) = (0, 0);
    for n in &nodes {
        for e in n.stuck_children() {
            stuck += 1;
            assert!(n.nodes().is_some());
            assert!(holds(n.bounds(), &e.bbox));
            assert!(!fits_a_quarter(n, e));
        }
        for e in n.children() {
            direct += 1;
            assert!(n.nodes().is_none());
            assert!(holds(n.bounds(), &e.bbox));
        }
    }
    assert!(stuck > 0 && direct > 0);
    assert_eq!(stuck + direct, 100);
}

fn crosses(a: &Rect, b: &Rect) -> bool {
    a.min().x < b.max().x && b.min().x < a.max().x && a.min().y < b.max().y && b.min().y < a.max().y
}

#[test]
fn retrieving_finds_what_crosses_the_query() {
    let bt = bounds_tree();
    let all = boxes();
    for q in [
        Rect::new(Point::new(100, 100), Point::new(400, 300)),
        Rect::new(Point::new(499, 499), Point::new(501, 501)),
        Rect::new(Point::new(0, 0), Point::new(999, 999)),
        Rect::new(Point::new(700, 20), Point::new(720, 900)),
    ] {
        let found = bt.retrieve(&q);
        for b in &all {
            if crosses(b, &q) {
                assert!(found.contains(&b));
            }
        }
    }
    for b in &all {
        assert!(bt.retrieve(b).contains(&b));
    }
}

#[test]
fn retrieving_twice_gives_the_same() {
    let bt = bounds_tree();
    let q = Rect::new(Point::new(100, 100), Point::new(400, 300));
    assert_eq!(bt.retrieve(&q), bt.retrieve(&q));
    let qt = point_tree();
    let p = Point::new(250, 250);
    assert_eq!(qt.retrieve(&p), qt.retrieve(&p));
    assert_eq!(qt.iter(), qt.iter());
}

fn probes() -> Vec<Geometry> {
    vec![
        Geometry::Point(Point::new(0, 0)),
        Geometry::Point(Point::new(500, 500)),
        Geometry::Point(Point::new(999, 1)),
        Geometry::Point(Point::new(313, 777)),
    ]
}

#[test]
fn find_gives_a_nearest_feature() {
    let qt = point_tree();
    for probe in probes() {
        let (p, d) = qt.find(&probe, &Squared).unwrap();
        let g = probe.as_geom();
        assert_eq!(d, Squared.dist_euclidean(&g, &GeometryRef::Point(p)));
        for other in scattered() {
            assert!(Squared.dist_euclidean(&g, &GeometryRef::Point(&other)) >= d);
        }
    }
    let bt = bounds_tree();
    for probe in probes() {
        let (b, d) = bt.find(&probe, &Squared).unwrap();
        let g = probe.as_geom();
        assert_eq!(d, Squared.dist_euclidean(&g, &GeometryRef::Rect(b)));
        for other in boxes() {
            assert!(Squared.dist_euclidean(&g, &GeometryRef::Rect(&other)) >= d);
        }
    }
}

#[test]
fn knn_gives_the_nearest_in_order() {
    let qt = point_tree();
    for probe in probes() {
        let g = probe.as_geom();
        let mut all: Vec<Dist> = scattered()
            .iter()
            .map(|p| Squared.dist_euclidean(&g, &GeometryRef::Point(p)))
            .collect();
        all.sort();
        assert_eq!(qt.knn(&probe, &Squared, 300).unwrap().len(), 200);
        assert_eq!(qt.knn(&probe, &Squared, 199).unwrap().len(), 199);
        for (k, r) in [(1, UNBOUNDED), (7, UNBOUNDED), (7, 2500), (300, 40000), (0, UNBOUNDED)] {
            let found = qt.knn_r(&probe, &Squared, k, r).unwrap();
            assert!(found.len() <= k);
            let want: Vec<Dist> = all.iter().copied().filter(|d| *d <= r).take(k).collect();
            assert_eq!(found.iter().map(|f| f.1).collect::<Vec<_>>(), want);
            for (p, d) in &found {
                assert_eq!(*d, Squared.dist_euclidean(&g, &GeometryRef::Point(p)));
            }
        }
    }
}

#[test]
fn the_walk_gives_every_feature_once_in_order() {
    let bt = bounds_tree();
    for probe in probes() {
        let g = probe.as_geom();
        let mut walk = bt.sorted(&probe, &Squared);
        let mut found = vec![];
        while let Some((b, d)) = walk.next() {
            assert_eq!(d, Squared.dist_euclidean(&g, &GeometryRef::Rect(b)));
            found.push((d, *b));
        }
        assert!(walk.next().is_none());
        assert_eq!(found.len(), 100);
        assert!(found.windows(2).all(|w| w[0].0 <= w[1].0));
        let key = |b: &Rect| (b.min().x, b.min().y, b.max().x, b.max().y);
        let mut got: Vec<_> = found.iter().map(|f| key(&f.1)).collect();
        let mut want: Vec<_> = boxes().iter().map(key).collect();
        got.sort();
        want.sort();
        assert_eq!(got, want);
    }
}

#[test]
fn the_exact_search_finds_a_nearest_feature() {
    let qt = point_tree();
    let bt = bounds_tree();
    for probe in probes() {
        let g = probe.as_geom();
        let least = scattered()
            .iter()
            .map(|p| Squared.dist_euclidean(&g, &GeometryRef::Point(p)))
            .min()
            .unwrap();
        for prefilter in [false, true] {
            let (e, d) = find_squared(qt.root(), &probe, prefilter, UNBOUNDED).unwrap();
            assert_eq!(d, least);
            assert_eq!(d, Squared.dist_euclidean(&g, &GeometryRef::Point(&e.datum)));
            assert_eq!(find_squared(qt.root(), &probe, prefilter, least).unwrap().1, least);
        }
        let least = boxes()
            .iter()
            .map(|b| Squared.dist_euclidean(&g, &GeometryRef::Rect(b)))
            .min()
            .unwrap();
        let (e, d) = find_squared(bt.root(), &probe, true, UNBOUNDED).unwrap();
        assert_eq!(d, least);
        assert_eq!(d, Squared.dist_euclidean(&g, &GeometryRef::Rect(&e.datum)));
    }
    let far = Geometry::Point(Point::new(2000, 0));
    assert!(find_squared(qt.root(), &far, false, UNBOUNDED).is_none());
    let near = Geometry::Point(Point::new(500, 500));
    let d = find_squared(qt.root(), &near, false, UNBOUNDED).unwrap().1;
    assert!(d > 0);
    assert!(find_squared(qt.root(), &near, false, 0).is_none());
    let empty: PointQuadTree<Point> =
        PointQuadTree::from_bounds(Rect::new(Point::new(0, 0), Point::new(9, 9)), CalcMethod::NotSet);
    assert!(find_squared(empty.root(), &Geometry::Point(Point::new(1, 1)), false, UNBOUNDED).is_none());
}
