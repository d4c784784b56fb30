//! What holds of the shape of every well-formed tree.

use vstd::prelude::*;
use crate::geom::point::Point;
use crate::geom::rect::{mid, Rect};
use crate::model::{fits, home, Entry, NodeView};
use crate::node::{lemma_quadrants_tile, on_boundary, quadrant, quarter_of};
use crate::quadtrees::find::lemma_items_contain;
use crate::quadtrees::nearest::lemma_items_split;

verus! {

impl<D> NodeView<D> {
    /// `n` is this node or a node below it.
    pub open spec fn has_node(self, n: NodeView<D>) -> bool
        decreases self,
    {
        self == n || (self.subs.len() == 4 && exists|i: int|
            0 <= i < 4 && (#[trigger] self.subs[i]).has_node(n))
    }

    /// The node without sub-nodes that a position falls in.
    pub open spec fn leaf_for(self, p: Point) -> NodeView<D>
        decreases self,
    {
        if self.subs.len() == 4 {
            self.subs[quarter_of(self.bounds, p).spec_index()].leaf_for(p)
        } else {
            self
        }
    }
}

/// Every feature is a single position.
pub open spec fn all_points<D>(es: Seq<Entry<D>>) -> bool {
    forall|k: int| 0 <= k < es.len() ==> (#[trigger] es[k]).bbox.min == es[k].bbox.max
}

/// The two rectangles share more than boundary points: on each axis the
/// one begins before the other ends.
pub open spec fn crosses(a: Rect, b: Rect) -> bool {
    a.min.x < b.max.x && b.min.x < a.max.x && a.min.y < b.max.y && b.min.y < a.max.y
}

/// Every node below a well-formed node is well formed.
pub proof fn lemma_nodes_wf<D>(root: NodeView<D>, n: NodeView<D>)
    requires
        root.wf(),
        root.has_node(n),
    ensures
        n.wf(),
        n.max_depth == root.max_depth,
        n.max_children == root.max_children,
        root.bounds.has_rect(n.bounds),
        n.depth >= root.depth,
    decreases root,
{
    if root != n {
        let i = choose|i: int| 0 <= i < 4 && (#[trigger] root.subs[i]).has_node(n);
        assert(root.subs[i].wf() && root.sub_matches(i));
        lemma_nodes_wf(root.subs[i], n);
        lemma_quadrants_tile(root.bounds);
        assert(root.bounds.has_rect(quadrant(root.bounds, i)));
    }
}

/// What a node below holds, the node above holds.
pub proof fn lemma_node_items<D>(root: NodeView<D>, n: NodeView<D>, e: Entry<D>)
    requires
        root.has_node(n),
        n.items().contains(e),
    ensures
        root.items().contains(e),
    decreases root,
{
    if root != n {
        let i = choose|i: int| 0 <= i < 4 && (#[trigger] root.subs[i]).has_node(n);
        lemma_node_items(root.subs[i], n, e);
        lemma_items_contain(root);
    }
}

/// The regions of the sub-nodes of a node lie in its region and cover it,
/// and two of them share boundary points only.
pub proof fn lemma_subs_tile<D>(root: NodeView<D>, n: NodeView<D>)
    requires
        root.wf(),
        root.has_node(n),
        n.subs.len() == 4,
    ensures
        forall|i: int| 0 <= i < 4 ==> n.bounds.has_rect((#[trigger] n.subs[i]).bounds),
        forall|p: Point|
            #[trigger] n.bounds.has_point(p) <==> exists|i: int|
                0 <= i < 4 && (#[trigger] n.subs[i]).bounds.has_point(p),
        forall|i: int, j: int, p: Point|
            0 <= i < 4 && 0 <= j < 4 && i != j && #[trigger] n.subs[i].bounds.has_point(p)
                && #[trigger] n.subs[j].bounds.has_point(p) ==> on_boundary(n.subs[i].bounds, p)
                && on_boundary(n.subs[j].bounds, p),
        forall|i: int|
            0 <= i < 4 ==> (#[trigger] n.subs[i]).depth == n.depth + 1 && n.subs[i].max_depth
                == n.max_depth && n.subs[i].max_children == n.max_children,
{
    lemma_nodes_wf(root, n);
    lemma_quadrants_tile(n.bounds);
    assert forall|i: int| 0 <= i < 4 implies (#[trigger] n.subs[i]).bounds == quadrant(
        n.bounds,
        i,
    ) && n.subs[i].depth == n.depth + 1 && n.subs[i].max_depth == n.max_depth
        && n.subs[i].max_children == n.max_children by {
        assert(n.subs[i].wf() && n.sub_matches(i));
    }
    assert forall|p: Point| #[trigger] n.bounds.has_point(p) implies exists|i: int|
        0 <= i < 4 && (#[trigger] n.subs[i]).bounds.has_point(p) by {
        let i = choose|i: int| 0 <= i < 4 && #[trigger] quadrant(n.bounds, i).has_point(p);
        assert(n.subs[i].bounds.has_point(p));
    }
    assert forall|p: Point|
        (exists|i: int| 0 <= i < 4 && (#[trigger] n.subs[i]).bounds.has_point(p)) implies
        #[trigger] n.bounds.has_point(p) by {
        let i = choose|i: int| 0 <= i < 4 && (#[trigger] n.subs[i]).bounds.has_point(p);
        assert(quadrant(n.bounds, i).has_point(p));
    }
    assert forall|i: int, j: int, p: Point|
        0 <= i < 4 && 0 <= j < 4 && i != j && #[trigger] n.subs[i].bounds.has_point(p)
            && #[trigger] n.subs[j].bounds.has_point(p) implies on_boundary(n.subs[i].bounds, p)
        && on_boundary(n.subs[j].bounds, p) by {
        assert(quadrant(n.bounds, i).has_point(p));
        assert(quadrant(n.bounds, j).has_point(p));
    }
}

/// A node without sub-nodes, above the depth limit, holds no more children
/// than the limit.
pub proof fn lemma_leaf_within_limit<D>(root: NodeView<D>, n: NodeView<D>)
    requires
        root.wf(),
        root.has_node(n),
        n.subs.len() == 0,
        n.depth < n.max_depth,
    ensures
        n.children.len() <= n.max_children,
{
    lemma_nodes_wf(root, n);
}

/// Every feature of a well-formed node is well formed and lies in the
/// region of the node.
pub proof fn lemma_items_within<D>(v: NodeView<D>, e: Entry<D>)
    requires
        v.wf(),
        v.items().contains(e),
    ensures
        v.admits(e),
    decreases v,
{
    lemma_items_split(v, e);
    if v.own().contains(e) {
        let k = choose|k: int| 0 <= k < v.own().len() && v.own()[k] == e;
        if k < v.children.len() {
            assert(v.children[k] == e);
        } else {
            assert(v.stuck[k - v.children.len()] == e);
        }
    } else {
        let i = choose|i: int| 0 <= i < 4 && (#[trigger] v.subs[i]).items().contains(e);
        assert(v.subs[i].wf() && v.sub_matches(i));
        lemma_items_within(v.subs[i], e);
        lemma_quadrants_tile(v.bounds);
        assert(v.bounds.has_rect(quadrant(v.bounds, i)));
    }
}

/// A position in a rectangle lies wholly in the quarter it belongs to.
pub proof fn lemma_point_fits(b: Rect, p: Point)
    requires
        b.wf(),
        b.has_point(p),
    ensures
        fits(b, Rect { min: p, max: p }),
        home(b, Rect { min: p, max: p }) == quarter_of(b, p).spec_index(),
{
    lemma_quadrants_tile(b);
}

/// The feature lives in the node in one of the two ways that a feature
/// can: stuck, where the node has sub-nodes and its region holds all of
/// the feature but the region of no sub-node does; or as a child, where
/// the node has no sub-nodes and its region holds all of the feature.
pub open spec fn lives_in<D>(n: NodeView<D>, e: Entry<D>) -> bool {
    &&& n.bounds.has_rect(e.bbox)
    &&& {
        ||| {
            &&& n.subs.len() == 4
            &&& n.stuck.contains(e)
            &&& forall|i: int| 0 <= i < 4 ==> !(#[trigger] n.subs[i]).bounds.has_rect(e.bbox)
        }
        ||| n.subs.len() == 0 && n.children.contains(e)
    }
}

/// Each feature of a tree lives in a node of it: stuck in the deepest
/// node that holds all of it, where no sub-node of that node does, or as a
/// child of a node without sub-nodes that holds all of it.
pub proof fn lemma_where_features_live<D>(root: NodeView<D>, e: Entry<D>)
    requires
        root.wf(),
        root.items().contains(e),
    ensures
        exists|n: NodeView<D>| #[trigger] root.has_node(n) && lives_in(n, e),
    decreases root,
{
    lemma_items_split(root, e);
    if root.own().contains(e) {
        let k = choose|k: int| 0 <= k < root.own().len() && root.own()[k] == e;
        if k < root.children.len() {
            assert(root.children[k] == e);
        } else {
            let j = k - root.children.len();
            assert(root.stuck[j] == e);
            assert(root.admits(root.stuck[j]) && !fits(root.bounds, root.stuck[j].bbox));
            lemma_stuck_fits_no_quarter(root.bounds, e.bbox);
            assert forall|i: int| 0 <= i < 4 implies !(#[trigger] root.subs[i]).bounds.has_rect(
                e.bbox,
            ) by {
                assert(root.subs[i].wf() && root.sub_matches(i));
                assert(!quadrant(root.bounds, i).has_rect(e.bbox));
            }
        }
        assert(root.has_node(root));
        assert(lives_in(root, e));
    } else {
        let i = choose|i: int| 0 <= i < 4 && (#[trigger] root.subs[i]).items().contains(e);
        assert(root.subs[i].wf());
        lemma_where_features_live(root.subs[i], e);
        let n = choose|n: NodeView<D>| #[trigger] root.subs[i].has_node(n) && lives_in(n, e);
        assert(root.has_node(n));
    }
}

/// Nothing is stuck in a node of a well-formed tree that a sub-node of the
/// node holds all of.
pub proof fn lemma_stuck_in_no_sub_node<D>(root: NodeView<D>, n: NodeView<D>, k: int, i: int)
    requires
        root.wf(),
        root.has_node(n),
        0 <= k < n.stuck.len(),
        0 <= i < n.subs.len(),
    ensures
        n.subs.len() == 4,
        n.bounds.has_rect(n.stuck[k].bbox),
        !n.subs[i].bounds.has_rect(n.stuck[k].bbox),
{
    lemma_nodes_wf(root, n);
    assert(n.admits(n.stuck[k]) && !fits(n.bounds, n.stuck[k].bbox));
    lemma_stuck_fits_no_quarter(n.bounds, n.stuck[k].bbox);
    assert(n.subs[i].wf() && n.sub_matches(i));
    assert(!quadrant(n.bounds, i).has_rect(n.stuck[k].bbox));
}

/// A rectangle that does not fit the quarter it belongs to fits no
/// quarter.
pub proof fn lemma_stuck_fits_no_quarter(b: Rect, bbox: Rect)
    requires
        b.wf(),
        bbox.wf(),
        !fits(b, bbox),
    ensures
        forall|i: int| 0 <= i < 4 ==> !(#[trigger] quadrant(b, i)).has_rect(bbox),
{
}

/// In a tree of positions nothing is stuck.
pub proof fn lemma_points_never_stuck<D>(v: NodeView<D>)
    requires
        v.wf(),
        all_points(v.items()),
    ensures
        v.stuck.len() == 0,
{
    if v.stuck.len() > 0 {
        let e = v.stuck[0];
        assert(v.admits(e) && !fits(v.bounds, e.bbox));
        assert(v.stuck.contains(e));
        lemma_items_contain(v);
        let k = choose|k: int| 0 <= k < v.items().len() && v.items()[k] == e;
        assert(v.items()[k].bbox.min == v.items()[k].bbox.max);
        lemma_point_fits(v.bounds, e.bbox.min);
    }
}

/// The features of a sub-node are features of the node.
pub proof fn lemma_sub_points<D>(v: NodeView<D>, i: int)
    requires
        v.subs.len() == 4,
        0 <= i < 4,
        all_points(v.items()),
    ensures
        all_points(v.subs[i].items()),
{
    lemma_items_contain(v);
    let sub = v.subs[i].items();
    assert forall|k: int| 0 <= k < sub.len() implies (#[trigger] sub[k]).bbox.min
        == sub[k].bbox.max by {
        assert(sub.contains(sub[k]));
        assert(v.items().contains(sub[k]));
        let j = choose|j: int| 0 <= j < v.items().len() && v.items()[j] == sub[k];
        assert(v.items()[j].bbox.min == v.items()[j].bbox.max);
    }
}

/// In a tree of positions each feature is a child of the node without
/// sub-nodes that its position falls in, and lies in the region of that
/// node.
pub proof fn lemma_point_in_its_leaf<D>(root: NodeView<D>, e: Entry<D>)
    requires
        root.wf(),
        all_points(root.items()),
        root.items().contains(e),
    ensures
        root.has_node(root.leaf_for(e.bbox.min)),
        root.leaf_for(e.bbox.min).subs.len() == 0,
        root.leaf_for(e.bbox.min).children.contains(e),
        root.leaf_for(e.bbox.min).bounds.has_point(e.bbox.min),
    decreases root,
{
    let p = e.bbox.min;
    lemma_points_never_stuck(root);
    lemma_items_split(root, e);
    lemma_items_within(root, e);
    let k0 = choose|k: int| 0 <= k < root.items().len() && root.items()[k] == e;
    assert(root.items()[k0].bbox.min == root.items()[k0].bbox.max);
    if root.subs.len() == 4 {
        assert(root.own() =~= Seq::empty());
        let i = choose|i: int| 0 <= i < 4 && (#[trigger] root.subs[i]).items().contains(e);
        let sub = root.subs[i].items();
        let k = choose|k: int| 0 <= k < sub.len() && sub[k] == e;
        assert(home(root.bounds, (root.subs[i].items()[k]).bbox) == i);
        lemma_point_fits(root.bounds, p);
        assert(quarter_of(root.bounds, p).spec_index() == i);
        assert(root.subs[i].wf());
        lemma_sub_points(root, i);
        lemma_point_in_its_leaf(root.subs[i], e);
        assert(root.has_node(root.leaf_for(p)));
    } else {
        assert(root.subs.len() == 0);
        assert(root.own() =~= root.children);
        assert(root.has_node(root));
    }
}

/// In a tree of positions only the node that a position falls in holds a
/// feature at that position among its children.
pub proof fn lemma_point_leaf_unique<D>(root: NodeView<D>, n: NodeView<D>, e: Entry<D>)
    requires
        root.wf(),
        all_points(root.items()),
        root.has_node(n),
        n.children.contains(e),
    ensures
        n == root.leaf_for(e.bbox.min),
    decreases root,
{
    let p = e.bbox.min;
    lemma_items_contain(n);
    lemma_node_items(root, n, e);
    lemma_items_within(root, e);
    let k0 = choose|k: int| 0 <= k < root.items().len() && root.items()[k] == e;
    assert(root.items()[k0].bbox.min == root.items()[k0].bbox.max);
    if root == n {
        assert(n.children.len() > 0);
    } else {
        let i = choose|i: int| 0 <= i < 4 && (#[trigger] root.subs[i]).has_node(n);
        lemma_node_items(root.subs[i], n, e);
        let sub = root.subs[i].items();
        let k = choose|k: int| 0 <= k < sub.len() && sub[k] == e;
        assert(home(root.bounds, (root.subs[i].items()[k]).bbox) == i);
        lemma_point_fits(root.bounds, p);
        assert(root.subs[i].wf());
        lemma_sub_points(root, i);
        lemma_point_leaf_unique(root.subs[i], n, e);
    }
}

/// What is stuck at place `k` in the node lies in the region of the node,
/// which has its four sub-nodes, and not in the region of the sub-node at
/// place `i`.
pub open spec fn stuck_outside<D>(n: NodeView<D>, k: int, i: int) -> bool {
    &&& n.subs.len() == 4
    &&& n.bounds.has_rect(n.stuck[k].bbox)
    &&& !n.subs[i].bounds.has_rect(n.stuck[k].bbox)
}

/// Whatever is stuck in a node of the tree lies in the region of that node
/// and in the region of none of its sub-nodes.
pub open spec fn well_placed<D>(root: NodeView<D>) -> bool {
    forall|n: NodeView<D>, k: int, i: int|
        root.has_node(n) && 0 <= k < n.stuck.len() && 0 <= i < n.subs.len() ==> #[trigger] stuck_outside(
            n,
            k,
            i,
        )
}

/// In a well-formed tree everything is well placed.
pub proof fn lemma_well_placed<D>(root: NodeView<D>)
    requires
        root.wf(),
    ensures
        well_placed(root),
{
    assert forall|n: NodeView<D>, k: int, i: int|
        root.has_node(n) && 0 <= k < n.stuck.len() && 0 <= i < n.subs.len() implies #[trigger] stuck_outside(
        n,
        k,
        i,
    ) by {
        lemma_stuck_in_no_sub_node(root, n, k, i);
    }
}

/// Two to the power of `n`.
pub open spec fn pow2(n: nat) -> nat
    decreases n,
{
    if n == 0 {
        1
    } else {
        2 * pow2((n - 1) as nat)
    }
}

/// The sides of the node's region can be halved on grid lines at every
/// level from the node down to the depth limit.
pub open spec fn halvable<D>(v: NodeView<D>) -> bool {
    &&& (v.bounds.max.x - v.bounds.min.x) % (pow2((v.max_depth - v.depth) as nat) as int) == 0
    &&& (v.bounds.max.y - v.bounds.min.y) % (pow2((v.max_depth - v.depth) as nat) as int) == 0
}

/// Half of a length that is a multiple of twice `m` is a multiple of `m`.
pub proof fn lemma_half_divides(w: int, m: int)
    requires
        w >= 0,
        m > 0,
        w % (2 * m) == 0,
    ensures
        w % 2 == 0,
        (w / 2) % m == 0,
{
    let q = w / (2 * m);
    assert(w == (2 * m) * q) by (nonlinear_arith)
        requires
            q == w / (2 * m),
            w % (2 * m) == 0,
            m > 0,
    ;
    assert(w == 2 * (m * q)) by (nonlinear_arith)
        requires
            w == (2 * m) * q,
    ;
    assert((m * q) % m == 0) by (nonlinear_arith)
        requires
            m > 0,
    ;
}

/// A power of two is positive.
pub proof fn lemma_pow2_positive(n: nat)
    ensures
        pow2(n) > 0,
    decreases n,
{
    if n > 0 {
        lemma_pow2_positive((n - 1) as nat);
    }
}

/// In a tree whose root region has sides that are multiples of two to the
/// power of the depth limit, every dividing line is the midline of its
/// node exactly: nothing is rounded, and a feature belongs to the quarter
/// that its midpoint falls in when compared with the midpoint of the node.
pub proof fn lemma_midlines_exact<D>(root: NodeView<D>, n: NodeView<D>)
    requires
        root.wf(),
        halvable(root),
        root.has_node(n),
    ensures
        halvable(n),
        n.subs.len() == 4 ==> 2 * mid(n.bounds.min.x as int, n.bounds.max.x as int)
            == n.bounds.min.x + n.bounds.max.x && 2 * mid(
            n.bounds.min.y as int,
            n.bounds.max.y as int,
        ) == n.bounds.min.y + n.bounds.max.y,
    decreases root,
{
    if root == n {
        if n.subs.len() == 4 {
            let k = (n.max_depth - n.depth) as nat;
            let m = pow2((k - 1) as nat) as int;
            lemma_pow2_positive((k - 1) as nat);
            lemma_half_divides(n.bounds.max.x - n.bounds.min.x, m);
            lemma_half_divides(n.bounds.max.y - n.bounds.min.y, m);
        }
    } else {
        let i = choose|i: int| 0 <= i < 4 && (#[trigger] root.subs[i]).has_node(n);
        assert(root.subs[i].wf() && root.sub_matches(i));
        let k = (root.max_depth - root.depth) as nat;
        let m = pow2((k - 1) as nat) as int;
        lemma_pow2_positive((k - 1) as nat);
        lemma_half_divides(root.bounds.max.x - root.bounds.min.x, m);
        lemma_half_divides(root.bounds.max.y - root.bounds.min.y, m);
        assert(halvable(root.subs[i]));
        lemma_midlines_exact(root.subs[i], n);
    }
}

} // verus!
