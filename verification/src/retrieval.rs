//! What retrieving is sure to find.

use vstd::prelude::*;
use crate::geom::geometry::{lemma_extent, lemma_extent_pair, Geometry};
use crate::geom::rect::Rect;
use crate::quadtrees::bounds::retrieved_for;
use crate::quadtrees::point::retrieved_at;
use crate::quadtrees::{datums, TreeView};
use crate::model::{home, Entry, NodeView};
use crate::node::lemma_quadrants_tile;
use crate::quadtrees::nearest::lemma_items_split;
use crate::geom::point::Point;
use crate::structure::{
    all_points, crosses, lemma_items_within, lemma_point_fits, lemma_points_never_stuck,
    lemma_sub_points,
};

verus! {

/// What a node holds itself is retrieved.
pub proof fn lemma_retrieved_has_own<D>(v: NodeView<D>, q: Rect, e: Entry<D>)
    requires
        v.own().contains(e),
    ensures
        v.retrieved(q).contains(e),
{
    let k = choose|k: int| 0 <= k < v.own().len() && v.own()[k] == e;
    assert(v.retrieved(q)[k] == e);
}

/// What the quarters that meet the rectangle hold is among `meeting`.
pub proof fn lemma_meeting_has<D>(v: NodeView<D>, q: Rect, i: int, e: Entry<D>)
    requires
        v.subs.len() == 4,
        0 <= i < 4,
        v.subs[i].bounds.meets(q),
        v.subs[i].items().contains(e),
    ensures
        v.meeting(q).contains(e),
{
    let s = v.subs[i].items();
    let k = choose|k: int| 0 <= k < s.len() && s[k] == e;
    let all = v.meeting(q);
    let n0 = v.subs[0].met(q).len() as int;
    let n1 = n0 + v.subs[1].met(q).len();
    let n2 = n1 + v.subs[2].met(q).len();
    if i == 0 {
        assert(all[k] == e);
    } else if i == 1 {
        assert(all[n0 + k] == e);
    } else if i == 2 {
        assert(all[n1 + k] == e);
    } else {
        assert(all[n2 + k] == e);
    }
}

/// What follows a node's own features in a retrieval is retrieved.
pub proof fn lemma_retrieved_has_rest<D>(v: NodeView<D>, q: Rect, rest: Seq<Entry<D>>, e: Entry<D>)
    requires
        v.retrieved(q) == v.own() + rest,
        rest.contains(e),
    ensures
        v.retrieved(q).contains(e),
{
    let k = choose|k: int| 0 <= k < rest.len() && rest[k] == e;
    assert(v.retrieved(q)[v.own().len() + k] == e);
}

/// Retrieving with a rectangle inside the tree finds every feature whose
/// bounding rectangle crosses it.
pub proof fn lemma_retrieve_finds_crossing<D>(v: NodeView<D>, q: Rect, e: Entry<D>)
    requires
        v.wf(),
        q.wf(),
        v.bounds.has_rect(q),
        v.items().contains(e),
        crosses(e.bbox, q),
    ensures
        v.retrieved(q).contains(e),
    decreases v,
{
    lemma_items_split(v, e);
    if v.own().contains(e) {
        lemma_retrieved_has_own(v, q, e);
    } else {
        let j = choose|j: int| 0 <= j < 4 && (#[trigger] v.subs[j]).items().contains(e);
        let i = home(v.bounds, q);
        assert(v.subs[j].wf() && v.sub_matches(j));
        assert(v.subs[i].wf() && v.sub_matches(i));
        lemma_items_within(v.subs[j], e);
        lemma_quadrants_tile(v.bounds);
        if v.subs[i].bounds.has_rect(q) {
            assert(i == j);
            lemma_retrieve_finds_crossing(v.subs[i], q, e);
            lemma_retrieved_has_rest(v, q, v.subs[i].retrieved(q), e);
        } else {
            lemma_meeting_has(v, q, j, e);
            lemma_retrieved_has_rest(v, q, v.meeting(q), e);
        }
    }
}

/// Retrieving with a rectangle inside the tree finds every feature with
/// that bounding rectangle.
pub proof fn lemma_retrieve_finds_same<D>(v: NodeView<D>, q: Rect, e: Entry<D>)
    requires
        v.wf(),
        q.wf(),
        v.bounds.has_rect(q),
        v.items().contains(e),
        e.bbox == q,
    ensures
        v.retrieved(q).contains(e),
    decreases v,
{
    lemma_items_split(v, e);
    if v.own().contains(e) {
        lemma_retrieved_has_own(v, q, e);
    } else {
        let j = choose|j: int| 0 <= j < 4 && (#[trigger] v.subs[j]).items().contains(e);
        let s = v.subs[j].items();
        let k = choose|k: int| 0 <= k < s.len() && s[k] == e;
        assert(home(v.bounds, (v.subs[j].items()[k]).bbox) == j);
        assert(v.subs[j].wf() && v.sub_matches(j));
        lemma_items_within(v.subs[j], e);
        lemma_retrieve_finds_same(v.subs[j], q, e);
        lemma_retrieved_has_rest(v, q, v.subs[j].retrieved(q), e);
    }
}

/// In a tree of positions, retrieving with a position gives the children
/// of the node without sub-nodes that the position falls in.
pub proof fn lemma_point_retrieve<D>(v: NodeView<D>, p: Point)
    requires
        v.wf(),
        all_points(v.items()),
        v.bounds.has_point(p),
    ensures
        v.retrieved(Rect { min: p, max: p }) == v.leaf_for(p).children,
    decreases v,
{
    let q = Rect { min: p, max: p };
    lemma_points_never_stuck(v);
    lemma_point_fits(v.bounds, p);
    if v.subs.len() == 4 {
        let i = home(v.bounds, q);
        assert(v.subs[i].wf() && v.sub_matches(i));
        lemma_sub_points(v, i);
        lemma_point_retrieve(v.subs[i], p);
        assert(v.own() =~= Seq::empty());
        assert(v.retrieved(q) =~= v.subs[i].retrieved(q));
    } else {
        assert(v.own() =~= v.children);
    }
}

/// The datum of a feature is among the data of the features.
pub proof fn lemma_datums_contain<D>(es: Seq<Entry<D>>, e: Entry<D>)
    requires
        es.contains(e),
    ensures
        datums(es).contains(e.datum),
{
    let k = choose|k: int| 0 <= k < es.len() && es[k] == e;
    assert(datums(es)[k] == e.datum);
}

/// What a bounds tree retrieves for a shape inside it holds the datum of
/// every feature whose bounding rectangle crosses that of the shape, and of
/// every feature with the same bounding rectangle.
pub proof fn lemma_retrieve_is_sound<D>(t: TreeView<D>, geom: Geometry, e: Entry<D>)
    requires
        t.wf(),
        geom.spec_bounding_rect() matches Some(q) && t.root.bounds.has_rect(q) && (crosses(
            e.bbox,
            q,
        ) || e.bbox == q),
        t.root.items().contains(e),
    ensures
        retrieved_for(t, geom).contains(e.datum),
{
    let q = geom.spec_bounding_rect()->0;
    assert(q.wf()) by {
        match geom {
            Geometry::Point(p) => {},
            Geometry::Line(l) => {
                lemma_extent_pair(l.start, l.end);
            },
            Geometry::LineString(s) => {
                lemma_extent(s.points@);
            },
            Geometry::Polygon(p) => {
                lemma_extent(p.exterior.points@);
            },
            Geometry::Rect(r) => {
                lemma_extent_pair(r.min, r.max);
            },
        }
    }
    if e.bbox == q {
        lemma_retrieve_finds_same(t.root, q, e);
    } else {
        lemma_retrieve_finds_crossing(t.root, q, e);
    }
    lemma_datums_contain(t.root.retrieved(q), e);
}

/// Retrieving with a position again gives the same: what is retrieved
/// depends on the tree and on the position alone.
pub proof fn lemma_retrieve_at_repeats<D>(t: TreeView<D>, p: Point, first: Seq<D>, second: Seq<D>)
    requires
        first == retrieved_at(t, p),
        second == retrieved_at(t, p),
    ensures
        first == second,
{
}

/// Retrieving again gives the same: what is retrieved depends on the tree
/// and on the shape alone.
pub proof fn lemma_retrieve_repeats<D>(t: TreeView<D>, geom: Geometry, first: Seq<D>, second: Seq<D>)
    requires
        first == retrieved_for(t, geom),
        second == retrieved_for(t, geom),
    ensures
        first == second,
{
}

} // verus!
