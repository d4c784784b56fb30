//! Formulas that need no floating point: the square of the planar distance
//! between positions and rectangles. Squares keep the order of distances,
//! so a search that measures with them finds what is nearest in the plane.

use vstd::prelude::*;
use crate::error::Error;
use crate::geom::calc::{Dist, DistEuclidean, DistHaversine, GeomCalc, UNBOUNDED};
use crate::geom::euclidean::{nearest_points, overlap_x, overlap_y, span};
use crate::geom::geometry::{lemma_extent_pair, Geometry, GeometryRef, Line};
use crate::geom::point::Point;
use crate::geom::rect::Rect;
use crate::geom::CalcMethod;
use crate::model::{Entry, NodeView};
use crate::quadtrees::coverage::features;
use crate::quadtrees::find::{found, outcome, visit, visited, Best, BestRef, Oracle};
use crate::quadtrees::knn::knn_found;
use crate::quadtrees::nearest_k::lemma_knn_is_nearest;
use crate::quadtrees::ordering::{ascending, lemma_knn_is_ordered, lemma_sorted_is_ordered};
use crate::quadtrees::sorted::{walk, walk_start};
use crate::quadtrees::nearest::{
    admissible, bounded_below, boxes_admissible, lemma_find_is_nearest, lemma_visited,
    lemma_visited_keeps, lemma_visited_ok, unfailing,
};
use crate::tree_node::Node;
use crate::quadtrees::TreeView;
use crate::structure::lemma_items_within;

verus! {

/// The formulas of squared planar distance. They measure positions and
/// rectangles; any other shape, and anything on the sphere, has no number
/// with them.
#[derive(Debug, Clone, Copy)]
pub struct Squared;

/// The rectangle that a position or a rectangle fills; no other shape has
/// one here.
pub open spec fn box_of(g: GeometryRef<'_>) -> Option<Rect> {
    match g {
        GeometryRef::Point(p) => Some(Rect { min: *p, max: *p }),
        GeometryRef::Rect(r) => Some(Rect::spanning(r.min, r.max)),
        _ => None,
    }
}

/// How far apart two intervals are: nothing where they overlap.
pub open spec fn apart(a_lo: int, a_hi: int, b_lo: int, b_hi: int) -> int {
    if a_hi < b_lo {
        b_lo - a_hi
    } else if b_hi < a_lo {
        a_lo - b_hi
    } else {
        0
    }
}

/// The square of the distance between two rectangles.
pub open spec fn boxes_sq(a: Rect, b: Rect) -> int {
    let dx = apart(a.min.x as int, a.max.x as int, b.min.x as int, b.max.x as int);
    let dy = apart(a.min.y as int, a.max.y as int, b.min.y as int, b.max.y as int);
    dx * dx + dy * dy
}

/// A number as a distance: itself, or the greatest distance that is a
/// number where it is greater than that.
pub open spec fn capped(v: int) -> Dist {
    if v >= UNBOUNDED {
        (UNBOUNDED - 1) as Dist
    } else {
        v as Dist
    }
}

/// The square of the planar distance between two shapes that are
/// positions or rectangles, and no number for others.
pub open spec fn squared(lhs: GeometryRef<'_>, rhs: GeometryRef<'_>) -> Dist {
    match (box_of(lhs), box_of(rhs)) {
        (Some(a), Some(b)) => capped(boxes_sq(a, b)),
        _ => UNBOUNDED,
    }
}

/// `apart`, computed.
fn axis_apart(a_lo: i64, a_hi: i64, b_lo: i64, b_hi: i64) -> (d: u64)
    ensures
        d == apart(a_lo as int, a_hi as int, b_lo as int, b_hi as int),
{
    if a_hi < b_lo {
        span(a_hi, b_lo)
    } else if b_hi < a_lo {
        span(b_hi, a_lo)
    } else {
        0
    }
}

/// `box_of`, computed.
fn box_for(g: &GeometryRef<'_>) -> (b: Option<Rect>)
    ensures
        b == box_of(*g),
{
    match g {
        GeometryRef::Point(p) => Some(Rect { min: **p, max: **p }),
        GeometryRef::Rect(r) => Some(Rect::new(r.min, r.max)),
        _ => None,
    }
}

/// The square of the distance between two rectangles, as a distance.
pub fn dist_sq_boxes(a: &Rect, b: &Rect) -> (d: Dist)
    ensures
        d == capped(boxes_sq(*a, *b)),
{
    let dx: u128 = axis_apart(a.min.x, a.max.x, b.min.x, b.max.x) as u128;
    let dy: u128 = axis_apart(a.min.y, a.max.y, b.min.y, b.max.y) as u128;
    assert(dx * dx <= 0xffff_ffff_ffff_ffff * 0xffff_ffff_ffff_ffff) by (nonlinear_arith)
        requires
            dx <= 0xffff_ffff_ffff_ffff,
    ;
    assert(dy * dy <= 0xffff_ffff_ffff_ffff * 0xffff_ffff_ffff_ffff) by (nonlinear_arith)
        requires
            dy <= 0xffff_ffff_ffff_ffff,
    ;
    let sx: u128 = dx * dx;
    let sy: u128 = dy * dy;
    let limit: u128 = 0xffff_ffff_ffff_fffe;
    match sx.checked_add(sy) {
        Some(s) => {
            if s > limit {
                0xffff_ffff_ffff_fffe
            } else {
                s as u64
            }
        },
        None => 0xffff_ffff_ffff_fffe,
    }
}

impl DistEuclidean for Squared {
    fn dist_euclidean(&self, lhs: &GeometryRef<'_>, rhs: &GeometryRef<'_>) -> (d: Dist)
        ensures
            d == squared(*lhs, *rhs),
    {
        match (box_for(lhs), box_for(rhs)) {
            (Some(a), Some(b)) => dist_sq_boxes(&a, &b),
            _ => UNBOUNDED,
        }
    }
}

impl DistHaversine for Squared {
    fn dist_pt_pt(&self, a: &Point, b: &Point) -> (d: Dist)
        ensures
            d == UNBOUNDED,
    {
        UNBOUNDED
    }

    fn dist_pt_line(&self, pt: &Point, line: &Line) -> (d: Dist)
        ensures
            d == UNBOUNDED,
    {
        UNBOUNDED
    }
}

/// What measuring from `probe` in the plane answers with these formulas.
pub open spec fn squared_oracle(probe: Geometry) -> Oracle {
    |g: Geometry| Ok::<Dist, Error>(squared(probe.spec_as_geom(), g.spec_as_geom()))
}

/// Intervals lie at least as far apart as intervals that hold them.
pub proof fn lemma_apart_grows(a_lo: int, a_hi: int, b_lo: int, b_hi: int, c_lo: int, c_hi: int)
    requires
        a_lo <= a_hi,
        c_lo <= c_hi,
        b_lo <= c_lo,
        c_hi <= b_hi,
    ensures
        0 <= apart(a_lo, a_hi, b_lo, b_hi) <= apart(a_lo, a_hi, c_lo, c_hi),
{
}

/// A rectangle is measured no farther than a rectangle inside it.
pub proof fn lemma_boxes_sq_grows(a: Rect, outer: Rect, inner: Rect)
    requires
        a.wf(),
        inner.wf(),
        outer.has_rect(inner),
    ensures
        capped(boxes_sq(a, outer)) <= capped(boxes_sq(a, inner)),
{
    let dx0 = apart(a.min.x as int, a.max.x as int, outer.min.x as int, outer.max.x as int);
    let dy0 = apart(a.min.y as int, a.max.y as int, outer.min.y as int, outer.max.y as int);
    let dx1 = apart(a.min.x as int, a.max.x as int, inner.min.x as int, inner.max.x as int);
    let dy1 = apart(a.min.y as int, a.max.y as int, inner.min.y as int, inner.max.y as int);
    lemma_apart_grows(
        a.min.x as int,
        a.max.x as int,
        outer.min.x as int,
        outer.max.x as int,
        inner.min.x as int,
        inner.max.x as int,
    );
    lemma_apart_grows(
        a.min.y as int,
        a.max.y as int,
        outer.min.y as int,
        outer.max.y as int,
        inner.min.y as int,
        inner.max.y as int,
    );
    assert(dx0 * dx0 <= dx1 * dx1) by (nonlinear_arith)
        requires
            0 <= dx0 <= dx1,
    ;
    assert(dy0 * dy0 <= dy1 * dy1) by (nonlinear_arith)
        requires
            0 <= dy0 <= dy1,
    ;
    assert(0 <= dx0 * dx0 && 0 <= dy0 * dy0) by (nonlinear_arith);
}

/// The rectangle that a feature fills is its bounding rectangle.
pub proof fn lemma_box_is_bbox<D>(e: Entry<D>)
    requires
        e.wf(),
    ensures
        box_of(e.geom.spec_as_geom()) matches Some(b) ==> b == e.bbox,
        box_of(GeometryRef::Rect(&e.bbox)) == Some(e.bbox),
{
    match e.geom {
        Geometry::Rect(r) => {
            lemma_extent_pair(r.min, r.max);
        },
        _ => {},
    }
}

/// With these formulas every node of a well-formed tree is measured no
/// farther than the features in it, and the bounding rectangle of every
/// feature no farther than the feature.
pub proof fn lemma_squared_admissible<D>(v: NodeView<D>, probe: Geometry)
    requires
        v.wf(),
    ensures
        admissible(v, squared_oracle(probe)),
        boxes_admissible(v.items(), squared_oracle(probe)),
    decreases v,
{
    let o = squared_oracle(probe);
    let all = v.items();
    assert forall|k: int| 0 <= k < all.len() implies bounded_below(o, v.bounds, #[trigger] all[k])
        && bounded_below(o, all[k].bbox, all[k]) by {
        let e = all[k];
        assert(all.contains(e));
        lemma_items_within(v, e);
        lemma_box_is_bbox(e);
        match (box_of(probe.spec_as_geom()), box_of(e.geom.spec_as_geom())) {
            (Some(a), Some(b)) => {
                lemma_extent_pair(a.min, a.max);
                assert(a.wf()) by {
                    match probe {
                        Geometry::Rect(r) => {
                            lemma_extent_pair(r.min, r.max);
                        },
                        _ => {},
                    }
                }
                lemma_boxes_sq_grows(a, v.bounds, e.bbox);
                assert(box_of(GeometryRef::Rect(&v.bounds)) == Some(v.bounds));
            },
            _ => {},
        }
    }
    if v.subs.len() == 4 {
        assert forall|i: int| 0 <= i < 4 implies admissible(#[trigger] v.subs[i], o) by {
            assert(v.subs[i].wf());
            lemma_squared_admissible(v.subs[i], probe);
        }
    }
}

/// Two rectangles that lie apart are as far apart as their nearest points.
pub proof fn lemma_nearest_points_sq(a: Rect, b: Rect)
    requires
        a.wf(),
        b.wf(),
    ensures
        boxes_sq(a, b) == boxes_sq(
            Rect { min: nearest_points(a, b).0, max: nearest_points(a, b).0 },
            Rect { min: nearest_points(a, b).1, max: nearest_points(a, b).1 },
        ),
        overlap_x(a, b) && overlap_y(a, b) ==> boxes_sq(a, b) == 0,
{
}

/// Measuring in the plane with these formulas answers what `squared_oracle`
/// says.
pub proof fn lemma_squared_agrees(calc: GeomCalc<'_, Squared>, probe: Geometry)
    requires
        calc.method == CalcMethod::Euclidean,
        calc.geom == probe.spec_as_geom(),
    ensures
        calc.agrees(squared_oracle(probe)),
{
    let o = squared_oracle(probe);
    assert forall|g: Geometry, out: Result<Dist, Error>| #[trigger]
        calc.measures(g.spec_as_geom(), out) implies out == o(g) by {
        match (calc.geom, g.spec_as_geom()) {
            (GeometryRef::Rect(a), GeometryRef::Rect(b)) => {
                lemma_extent_pair(a.min, a.max);
                lemma_extent_pair(b.min, b.max);
                let an = Rect::spanning(a.min, a.max);
                let bn = Rect::spanning(b.min, b.max);
                lemma_nearest_points_sq(an, bn);
                let d = out->Ok_0;
                assert(crate::geom::euclidean::planar_rect_answer(calc.math, *a, *b, d));
                if !(overlap_x(an, bn) && overlap_y(an, bn)) {
                    let p = nearest_points(an, bn).0;
                    let q = nearest_points(an, bn).1;
                    assert(d == squared(GeometryRef::Point(&p), GeometryRef::Point(&q)));
                }
            },
            _ => {},
        }
    }
}

/// A search with these formulas finds a nearest feature: no feature of the
/// tree lies nearer to the probe in the plane than the one found.
pub proof fn lemma_squared_find_is_nearest<D>(
    t: TreeView<D>,
    probe: Geometry,
    prefilter: bool,
    r: Dist,
    e: Entry<D>,
)
    requires
        t.wf(),
        found(t, squared_oracle(probe), prefilter, r) is Ok,
        t.root.items().contains(e),
    ensures
        squared(probe.spec_as_geom(), e.geom.spec_as_geom()) >= found(
            t,
            squared_oracle(probe),
            prefilter,
            r,
        )->Ok_0.1,
{
    lemma_squared_admissible(t.root, probe);
    lemma_find_is_nearest(t, squared_oracle(probe), prefilter, r, e);
}

/// A search for the nearest features with these formulas gives them in
/// order of distance, and leaves out no feature that is nearer than the
/// last one given, where it gives `k`, nor any within `r`, where it gives
/// fewer.
pub proof fn lemma_squared_knn_is_nearest<D>(
    root: NodeView<D>,
    probe: Geometry,
    k: nat,
    r: Dist,
    e: Entry<D>,
)
    requires
        root.wf(),
        k > 0,
        knn_found(root, squared_oracle(probe), k, r) is Ok,
        root.items().to_multiset().count(e) > features(
            knn_found(root, squared_oracle(probe), k, r)->Ok_0,
        ).to_multiset().count(e),
    ensures
        ascending(knn_found(root, squared_oracle(probe), k, r)->Ok_0),
        knn_found(root, squared_oracle(probe), k, r)->Ok_0.len() < k ==> squared(
            probe.spec_as_geom(),
            e.geom.spec_as_geom(),
        ) > r,
        knn_found(root, squared_oracle(probe), k, r)->Ok_0.len() == k ==> squared(
            probe.spec_as_geom(),
            e.geom.spec_as_geom(),
        ) >= knn_found(root, squared_oracle(probe), k, r)->Ok_0.last().1,
{
    lemma_squared_admissible(root, probe);
    lemma_knn_is_ordered(root, squared_oracle(probe), k, r);
    lemma_knn_is_nearest(root, squared_oracle(probe), k, r, e);
}

/// A walk with these formulas gives the features in order of distance.
pub proof fn lemma_squared_walk_is_ordered<D>(root: NodeView<D>, probe: Geometry)
    requires
        root.wf(),
    ensures
        ascending(walk(walk_start(root, squared_oracle(probe)), squared_oracle(probe))),
{
    lemma_squared_admissible(root, probe);
    lemma_sorted_is_ordered(root, squared_oracle(probe));
}

/// The feature under `root` that is nearest to the probe in the plane,
/// among those whose squared distance is no more than `r`, and that
/// squared distance. `prefilter` leaves a feature unmeasured whose bounding
/// rectangle is already too far; it does not change the result.
///
/// Nothing is found where the probe does not touch the region of `root`,
/// and where no feature is nearer than `r`.
pub fn find_squared<'a, D>(root: &'a Node<D>, probe: &Geometry, prefilter: bool, r: Dist) -> (res:
    Option<(&'a Entry<D>, Dist)>)
    requires
        root@.wf(),
    ensures
        res matches Some((e, d)) ==> {
            &&& root@.items().contains(*e)
            &&& d == squared(probe.spec_as_geom(), e.geom.spec_as_geom())
            &&& d <= r
            &&& squared(probe.spec_as_geom(), GeometryRef::Rect(&root@.bounds)) == 0
            &&& forall|x: Entry<D>| #[trigger]
                root@.items().contains(x) ==> squared(
                    probe.spec_as_geom(),
                    x.geom.spec_as_geom(),
                ) >= d
        },
        res is None ==> squared(probe.spec_as_geom(), GeometryRef::Rect(&root@.bounds)) != 0
            || forall|x: Entry<D>| #[trigger]
            root@.items().contains(x) ==> squared(probe.spec_as_geom(), x.geom.spec_as_geom())
                >= r,
{
    let math = Squared;
    let calc = GeomCalc::new(probe.as_geom(), CalcMethod::Euclidean, &math);
    let ghost o = squared_oracle(*probe);
    proof {
        lemma_squared_agrees(calc, *probe);
        lemma_squared_admissible(root@, *probe);
        assert(calc.agrees(o));
        assert(unfailing(o));
    }
    let reach = calc.dist_bbox(root.bounds());
    proof {
        calc.lemma_agrees(o, Geometry::Rect(root@.bounds), reach);
    }
    match reach {
        Ok(0) => {},
        _ => {
            return None;
        },
    }
    let first = BestRef { item: None, dist: r };
    let walked = visit(root, &calc, prefilter, first);
    proof {
        lemma_visited_ok(root@, o, prefilter, first@);
        lemma_visited(root@, o, prefilter, first@);
        lemma_visited_keeps(root@, o, prefilter, first@);
        let last = visited(root@, o, prefilter, first@)->Ok_0;
        assert(outcome(walked) == Ok::<Best<D>, Error>(last));
        assert forall|x: Entry<D>| #[trigger] root@.items().contains(x) implies squared(
            probe.spec_as_geom(),
            x.geom.spec_as_geom(),
        ) >= last.dist by {
            let k = choose|k: int| 0 <= k < root@.items().len() && root@.items()[k] == x;
            assert(root@.items()[k] == x);
        }
    }
    match walked {
        Ok(best) => match best.item {
            Some(e) => {
                proof {
                    calc.lemma_agrees(o, e.geom, Ok(best.dist));
                }
                Some((e, best.dist))
            },
            None => None,
        },
        Err(_) => None,
    }
}

} // verus!
