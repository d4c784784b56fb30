//! Why the nearest-feature walk finds a nearest feature.

use vstd::prelude::*;
use crate::error::Error;
use crate::geom::calc::Dist;
use crate::geom::geometry::Geometry;
use crate::model::{Entry, NodeView};
use crate::quadtrees::find::{found, looked, measured, scanned, then_visited, visited, Best, Oracle};
use crate::quadtrees::TreeView;

verus! {

/// The region is measured no farther than the feature. Nothing is said
/// where one of the two has no distance.
pub open spec fn bounded_below<D>(o: Oracle, region: crate::geom::rect::Rect, e: Entry<D>) -> bool {
    o(Geometry::Rect(region)) matches Ok(b) ==> (o(e.geom) matches Ok(d) ==> b <= d)
}

/// Every node is measured no farther than each feature in it or below it.
pub open spec fn admissible<D>(v: NodeView<D>, o: Oracle) -> bool
    decreases v,
{
    &&& forall|k: int| 0 <= k < v.items().len() ==> bounded_below(o, v.bounds, #[trigger] v.items()[k])
    &&& v.subs.len() == 4 ==> forall|i: int| 0 <= i < 4 ==> admissible(#[trigger] v.subs[i], o)
}

/// The bounding rectangle of every feature is measured no farther than
/// the feature.
pub open spec fn boxes_admissible<D>(es: Seq<Entry<D>>, o: Oracle) -> bool {
    forall|k: int| 0 <= k < es.len() ==> bounded_below(o, (#[trigger] es[k]).bbox, es[k])
}

/// A feature of a node is one of its own or one of a quarter's.
pub proof fn lemma_items_split<D>(v: NodeView<D>, e: Entry<D>)
    requires
        v.items().contains(e),
    ensures
        v.own().contains(e) || (v.subs.len() == 4 && exists|i: int|
            0 <= i < 4 && (#[trigger] v.subs[i]).items().contains(e)),
{
    let all = v.items();
    let k = choose|k: int| 0 <= k < all.len() && all[k] == e;
    let n0 = v.own().len() as int;
    if k < n0 {
        assert(v.own()[k] == e);
    } else {
        let n1 = n0 + v.subs[0].items().len();
        let n2 = n1 + v.subs[1].items().len();
        let n3 = n2 + v.subs[2].items().len();
        if k < n1 {
            assert(v.subs[0].items()[k - n0] == e);
        } else if k < n2 {
            assert(v.subs[1].items()[k - n1] == e);
        } else if k < n3 {
            assert(v.subs[2].items()[k - n2] == e);
        } else {
            assert(v.subs[3].items()[k - n3] == e);
        }
    }
}

/// Looking at features never raises the distance to beat, and leaves every
/// feature looked at no nearer than it.
pub proof fn lemma_scanned<D>(es: Seq<Entry<D>>, o: Oracle, prefilter: bool, best: Best<D>)
    requires
        prefilter ==> boxes_admissible(es, o),
        scanned(es, o, prefilter, best) is Ok,
    ensures
        scanned(es, o, prefilter, best)->Ok_0.dist <= best.dist,
        forall|k: int|
            0 <= k < es.len() ==> (o((#[trigger] es[k]).geom) matches Ok(d) ==> d >= scanned(
                es,
                o,
                prefilter,
                best,
            )->Ok_0.dist),
    decreases es.len(),
{
    if es.len() > 0 {
        let b1 = looked(es[0], o, prefilter, best)->Ok_0;
        let rest = es.drop_first();
        assert(bounded_below(o, es[0].bbox, es[0]) || !prefilter);
        assert forall|k: int| 0 <= k < rest.len() implies bounded_below(
            o,
            (#[trigger] rest[k]).bbox,
            rest[k],
        ) || !prefilter by {
            assert(rest[k] == es[k + 1]);
        }
        lemma_scanned(rest, o, prefilter, b1);
        let last = scanned(es, o, prefilter, best)->Ok_0;
        assert forall|k: int| 0 <= k < es.len() implies (o((#[trigger] es[k]).geom) matches Ok(d)
            ==> d >= last.dist) by {
            if k > 0 {
                assert(rest[k - 1] == es[k]);
            }
        }
    }
}

/// A walk never raises the distance to beat, and leaves every feature of
/// the node no nearer than it.
pub proof fn lemma_visited<D>(v: NodeView<D>, o: Oracle, prefilter: bool, best: Best<D>)
    requires
        admissible(v, o),
        prefilter ==> boxes_admissible(v.items(), o),
        visited(v, o, prefilter, best) is Ok,
    ensures
        visited(v, o, prefilter, best)->Ok_0.dist <= best.dist,
        forall|k: int|
            0 <= k < v.items().len() ==> (o((#[trigger] v.items()[k]).geom) matches Ok(d) ==> d
                >= visited(v, o, prefilter, best)->Ok_0.dist),
    decreases v,
{
    let all = v.items();
    let last = visited(v, o, prefilter, best)->Ok_0;
    let reach = o(Geometry::Rect(v.bounds))->Ok_0;
    if reach >= best.dist {
        assert forall|k: int| 0 <= k < all.len() implies (o((#[trigger] all[k]).geom) matches Ok(d)
            ==> d >= last.dist) by {
            assert(bounded_below(o, v.bounds, all[k]));
        }
    } else {
        let own = v.own();
        assert forall|k: int| 0 <= k < own.len() implies bounded_below(
            o,
            (#[trigger] own[k]).bbox,
            own[k],
        ) || !prefilter by {
            assert(all[k] == own[k]);
        }
        let s = scanned(own, o, prefilter, best);
        lemma_scanned(own, o, prefilter, best);
        if v.subs.len() == 4 {
            let r0 = then_visited(s, v.subs[0], o, prefilter);
            let r1 = then_visited(r0, v.subs[1], o, prefilter);
            let r2 = then_visited(r1, v.subs[2], o, prefilter);
            let r3 = then_visited(r2, v.subs[3], o, prefilter);
            assert(r3 == Ok::<Best<D>, Error>(last));
            lemma_sub_boxes(v, o, prefilter);
            lemma_visited(v.subs[0], o, prefilter, s->Ok_0);
            lemma_visited(v.subs[1], o, prefilter, r0->Ok_0);
            lemma_visited(v.subs[2], o, prefilter, r1->Ok_0);
            lemma_visited(v.subs[3], o, prefilter, r2->Ok_0);
            assert forall|k: int| 0 <= k < all.len() implies (o((#[trigger] all[k]).geom) matches Ok(
                d,
            ) ==> d >= last.dist) by {
                let e = all[k];
                lemma_items_split(v, e);
                if own.contains(e) {
                    let j = choose|j: int| 0 <= j < own.len() && own[j] == e;
                    assert(own[j] == e);
                } else {
                    let i = choose|i: int| 0 <= i < 4 && (#[trigger] v.subs[i]).items().contains(e);
                    let sub = v.subs[i].items();
                    let j = choose|j: int| 0 <= j < sub.len() && sub[j] == e;
                    assert(sub[j] == e);
                }
            }
        } else {
            assert(all =~= own);
        }
    }
}

/// Measuring answers with a distance for every shape.
pub open spec fn unfailing(o: Oracle) -> bool {
    forall|g: Geometry| (#[trigger] o(g)) is Ok
}

/// Where measuring never fails, looking at features does not fail.
pub proof fn lemma_scanned_ok<D>(es: Seq<Entry<D>>, o: Oracle, prefilter: bool, best: Best<D>)
    requires
        unfailing(o),
    ensures
        scanned(es, o, prefilter, best) is Ok,
    decreases es.len(),
{
    if es.len() > 0 {
        assert(o(Geometry::Rect(es[0].bbox)) is Ok);
        assert(o(es[0].geom) is Ok);
        let b1 = looked(es[0], o, prefilter, best)->Ok_0;
        lemma_scanned_ok(es.drop_first(), o, prefilter, b1);
    }
}

/// Where measuring never fails, a walk does not fail.
pub proof fn lemma_visited_ok<D>(v: NodeView<D>, o: Oracle, prefilter: bool, best: Best<D>)
    requires
        unfailing(o),
    ensures
        visited(v, o, prefilter, best) is Ok,
    decreases v,
{
    assert(o(Geometry::Rect(v.bounds)) is Ok);
    let reach = o(Geometry::Rect(v.bounds))->Ok_0;
    if reach < best.dist {
        lemma_scanned_ok(v.own(), o, prefilter, best);
        let s = scanned(v.own(), o, prefilter, best);
        if v.subs.len() == 4 {
            lemma_visited_ok(v.subs[0], o, prefilter, s->Ok_0);
            let r0 = then_visited(s, v.subs[0], o, prefilter);
            lemma_visited_ok(v.subs[1], o, prefilter, r0->Ok_0);
            let r1 = then_visited(r0, v.subs[1], o, prefilter);
            lemma_visited_ok(v.subs[2], o, prefilter, r1->Ok_0);
            let r2 = then_visited(r1, v.subs[2], o, prefilter);
            lemma_visited_ok(v.subs[3], o, prefilter, r2->Ok_0);
        }
    }
}

/// Looking at features leaves the best as it was or puts a feature in its
/// place.
pub proof fn lemma_scanned_keeps<D>(es: Seq<Entry<D>>, o: Oracle, prefilter: bool, best: Best<D>)
    requires
        scanned(es, o, prefilter, best) is Ok,
    ensures
        scanned(es, o, prefilter, best)->Ok_0 == best || scanned(
            es,
            o,
            prefilter,
            best,
        )->Ok_0.item is Some,
    decreases es.len(),
{
    if es.len() > 0 {
        let b1 = looked(es[0], o, prefilter, best)->Ok_0;
        lemma_scanned_keeps(es.drop_first(), o, prefilter, b1);
    }
}

/// A walk leaves the best as it was or puts a feature in its place.
pub proof fn lemma_visited_keeps<D>(v: NodeView<D>, o: Oracle, prefilter: bool, best: Best<D>)
    requires
        visited(v, o, prefilter, best) is Ok,
    ensures
        visited(v, o, prefilter, best)->Ok_0 == best || visited(
            v,
            o,
            prefilter,
            best,
        )->Ok_0.item is Some,
    decreases v,
{
    let reach = o(Geometry::Rect(v.bounds))->Ok_0;
    if reach < best.dist {
        let s = scanned(v.own(), o, prefilter, best);
        if v.subs.len() == 4 {
            let r0 = then_visited(s, v.subs[0], o, prefilter);
            let r1 = then_visited(r0, v.subs[1], o, prefilter);
            let r2 = then_visited(r1, v.subs[2], o, prefilter);
            let r3 = then_visited(r2, v.subs[3], o, prefilter);
            assert(r3 == visited(v, o, prefilter, best));
            lemma_scanned_keeps(v.own(), o, prefilter, best);
            lemma_visited_keeps(v.subs[0], o, prefilter, s->Ok_0);
            lemma_visited_keeps(v.subs[1], o, prefilter, r0->Ok_0);
            lemma_visited_keeps(v.subs[2], o, prefilter, r1->Ok_0);
            lemma_visited_keeps(v.subs[3], o, prefilter, r2->Ok_0);
        } else {
            lemma_scanned_keeps(v.own(), o, prefilter, best);
        }
    }
}

/// Where the bounding rectangles of a node's features are admissible, so
/// are those of each quarter's.
pub proof fn lemma_sub_boxes<D>(v: NodeView<D>, o: Oracle, prefilter: bool)
    requires
        v.subs.len() == 4,
        prefilter ==> boxes_admissible(v.items(), o),
    ensures
        forall|i: int|
            0 <= i < 4 ==> (prefilter ==> boxes_admissible((#[trigger] v.subs[i]).items(), o)),
{
    if prefilter {
        crate::quadtrees::find::lemma_items_contain(v);
        assert forall|i: int| 0 <= i < 4 implies boxes_admissible(
            (#[trigger] v.subs[i]).items(),
            o,
        ) by {
            let sub = v.subs[i].items();
            assert forall|k: int| 0 <= k < sub.len() implies bounded_below(
                o,
                (#[trigger] sub[k]).bbox,
                sub[k],
            ) by {
                assert(sub.contains(sub[k]));
                assert(v.items().contains(sub[k]));
                let j = choose|j: int| 0 <= j < v.items().len() && v.items()[j] == sub[k];
                assert(bounded_below(o, v.items()[j].bbox, v.items()[j]));
            }
        }
    }
}

/// What a search finds is a nearest feature: where every node is measured
/// no farther than the features in it, no feature of the tree is measured
/// nearer than the one found.
pub proof fn lemma_find_is_nearest<D>(
    t: TreeView<D>,
    o: Oracle,
    prefilter: bool,
    r: Dist,
    e: Entry<D>,
)
    requires
        admissible(t.root, o),
        prefilter ==> boxes_admissible(t.root.items(), o),
        found(t, o, prefilter, r) is Ok,
        t.root.items().contains(e),
        o(e.geom) is Ok,
    ensures
        o(e.geom)->Ok_0 >= found(t, o, prefilter, r)->Ok_0.1,
        found(t, o, prefilter, r)->Ok_0.1 <= r,
{
    let first = Best::<D> { item: None, dist: r };
    lemma_visited(t.root, o, prefilter, first);
    let k = choose|k: int| 0 <= k < t.root.items().len() && t.root.items()[k] == e;
    assert(t.root.items()[k] == e);
}

} // verus!
