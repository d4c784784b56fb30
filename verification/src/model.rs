//! The mathematical model of a node: what it holds, when it is well
//! formed, and what inserting and retrieving mean.

use vstd::prelude::*;
use crate::geom::geometry::Geometry;
use crate::geom::rect::Rect;
use crate::node::{quadrant, quarter_of_rect};

verus! {

/// A stored feature: the datum, its shape, and the bounding rectangle of
/// that shape.
#[derive(Debug)]
pub struct Entry<D> {
    pub geom: Geometry,
    pub bbox: Rect,
    pub datum: D,
}

impl<D> Entry<D> {
    /// The rectangle is the bounding rectangle of the shape.
    pub open spec fn wf(&self) -> bool {
        self.bbox.wf() && self.geom.spec_bounding_rect() == Some(self.bbox)
    }
}

/// The index of the quarter of `b` that a rectangle belongs to: the one
/// its midpoint falls in.
pub open spec fn home(b: Rect, bbox: Rect) -> int {
    quarter_of_rect(b, bbox).spec_index()
}

/// The rectangle lies wholly in the quarter it belongs to; it lies wholly
/// in no quarter otherwise (`structure::lemma_stuck_fits_no_quarter`).
pub open spec fn fits(b: Rect, bbox: Rect) -> bool {
    quadrant(b, home(b, bbox)).has_rect(bbox)
}

/// A node as a value: thresholds, features held directly, features stuck
/// here, and sub-nodes (none, or four).
pub struct NodeView<D> {
    pub bounds: Rect,
    pub depth: u8,
    pub max_depth: u8,
    pub max_children: usize,
    pub children: Seq<Entry<D>>,
    pub stuck: Seq<Entry<D>>,
    pub subs: Seq<NodeView<D>>,
}

impl<D> NodeView<D> {
    /// A node with nothing in it and no sub-nodes.
    pub open spec fn leaf(bounds: Rect, depth: u8, max_depth: u8, max_children: usize) -> Self {
        NodeView {
            bounds,
            depth,
            max_depth,
            max_children,
            children: Seq::empty(),
            stuck: Seq::empty(),
            subs: Seq::empty(),
        }
    }

    /// The node has its four quarters.
    pub open spec fn subdivided(self) -> bool {
        self.subs.len() == 4
    }

    /// What the node holds itself: children, then stuck children.
    pub open spec fn own(self) -> Seq<Entry<D>> {
        self.children + self.stuck
    }

    /// Everything below the sub-nodes, in index order.
    pub open spec fn below(self) -> Seq<Entry<D>>
        decreases self, 0nat,
    {
        if self.subs.len() == 4 {
            self.subs[0].items() + self.subs[1].items() + self.subs[2].items()
                + self.subs[3].items()
        } else {
            Seq::empty()
        }
    }

    /// Everything the node holds, in preorder: its own features first, then
    /// those of each sub-node in index order.
    pub open spec fn items(self) -> Seq<Entry<D>>
        decreases self, 1nat,
    {
        self.own() + self.below()
    }

    /// The feature is well formed and inside the node.
    pub open spec fn admits(self, e: Entry<D>) -> bool {
        e.wf() && self.bounds.has_rect(e.bbox)
    }

    /// The sub-node at `i` is the `i`-th quarter, one level down, with the
    /// thresholds of this node.
    pub open spec fn sub_matches(self, i: int) -> bool {
        &&& self.subs[i].bounds == quadrant(self.bounds, i)
        &&& self.subs[i].depth == self.depth + 1
        &&& self.subs[i].max_depth == self.max_depth
        &&& self.subs[i].max_children == self.max_children
    }

    /// The invariant of a node and of all below it. The region is a
    /// rectangle, and every feature held lies in it. A stuck feature does
    /// not fit the quarter it belongs to, and so none. A node without
    /// sub-nodes has nothing stuck and, above the depth limit, no more
    /// children than the limit. A node with sub-nodes lies above the depth
    /// limit and has no children; its sub-nodes are its four quarters, one
    /// level down and well formed, and each holds only features that
    /// belong to it.
    pub open spec fn wf(self) -> bool
        decreases self,
    {
        &&& self.bounds.wf()
        &&& self.depth <= self.max_depth
        &&& forall|k: int| 0 <= k < self.children.len() ==> self.admits(#[trigger] self.children[k])
        &&& forall|k: int|
            0 <= k < self.stuck.len() ==> self.admits(#[trigger] self.stuck[k]) && !fits(
                self.bounds,
                self.stuck[k].bbox,
            )
        &&& if self.subs.len() == 0 {
            &&& self.stuck.len() == 0
            &&& self.depth < self.max_depth ==> self.children.len() <= self.max_children
        } else {
            &&& self.subs.len() == 4
            &&& self.depth < self.max_depth
            &&& self.children.len() == 0
            &&& forall|i: int|
                0 <= i < 4 ==> (#[trigger] self.subs[i]).wf() && self.sub_matches(i)
            &&& forall|i: int, k: int|
                0 <= i < 4 && 0 <= k < self.subs[i].items().len() ==> home(
                    self.bounds,
                    (#[trigger] self.subs[i].items()[k]).bbox,
                ) == i
        }
    }

    /// The node with its children taken out and four empty quarters put
    /// under it.
    pub open spec fn split(self) -> Self {
        let d = (self.depth + 1) as u8;
        NodeView {
            children: Seq::empty(),
            subs: seq![
                Self::leaf(quadrant(self.bounds, 0), d, self.max_depth, self.max_children),
                Self::leaf(quadrant(self.bounds, 1), d, self.max_depth, self.max_children),
                Self::leaf(quadrant(self.bounds, 2), d, self.max_depth, self.max_children),
                Self::leaf(quadrant(self.bounds, 3), d, self.max_depth, self.max_children),
            ],
            ..self
        }
    }

    /// The debugging dump of the node and of all below it: a line for each
    /// node, indented by depth, with the least corner of its region and
    /// the number of features it holds itself.
    pub open spec fn dump(self) -> Seq<char>
        decreases self,
    {
        let line = crate::text::node_line(
            self.depth as nat,
            self.bounds.min.x as int,
            self.bounds.min.y as int,
            self.own().len(),
        );
        if self.subs.len() == 4 {
            line + self.subs[0].dump() + self.subs[1].dump() + self.subs[2].dump()
                + self.subs[3].dump()
        } else {
            line
        }
    }

    /// A subdivided node after one feature went down into the quarter it
    /// belongs to, or stayed stuck here because that quarter does not hold
    /// all of it. `fuel` is the number of levels left below this node.
    pub open spec fn placed(self, e: Entry<D>, fuel: nat) -> Self
        decreases fuel, 0nat,
    {
        let i = home(self.bounds, e.bbox);
        if !fits(self.bounds, e.bbox) {
            NodeView { stuck: self.stuck.push(e), ..self }
        } else if fuel == 0 || self.subs.len() != 4 {
            self
        } else {
            NodeView {
                subs: self.subs.update(i, self.subs[i].inserted_with(e, (fuel - 1) as nat)),
                ..self
            }
        }
    }

    /// `placed`, for each feature of a sequence in turn.
    pub open spec fn placed_all(self, es: Seq<Entry<D>>, fuel: nat) -> Self
        decreases fuel, 1 + es.len(),
    {
        if es.len() == 0 {
            self
        } else {
            self.placed(es[0], fuel).placed_all(es.drop_first(), fuel)
        }
    }

    /// The node after a feature was inserted. A subdivided node hands it
    /// down or keeps it stuck. A full node above the depth limit splits, and
    /// its children and the new feature are placed again, in that order.
    /// Any other node appends it to its children.
    pub open spec fn inserted_with(self, e: Entry<D>, fuel: nat) -> Self
        decreases fuel, self.children.len() + 3,
    {
        if self.subs.len() == 4 {
            self.placed(e, fuel)
        } else if self.children.len() >= self.max_children && self.depth < self.max_depth {
            self.split().placed_all(self.children.push(e), fuel)
        } else {
            NodeView { children: self.children.push(e), ..self }
        }
    }

    /// The node after a feature was inserted; see `inserted_with`.
    pub open spec fn inserted(self, e: Entry<D>) -> Self {
        self.inserted_with(e, (self.max_depth - self.depth) as nat)
    }

    /// Everything in the node if its region meets the rectangle, nothing
    /// otherwise.
    pub open spec fn met(self, q: Rect) -> Seq<Entry<D>> {
        if self.bounds.meets(q) {
            self.items()
        } else {
            Seq::empty()
        }
    }

    /// Everything in the sub-nodes that meet the rectangle.
    pub open spec fn meeting(self, q: Rect) -> Seq<Entry<D>> {
        self.subs[0].met(q) + self.subs[1].met(q) + self.subs[2].met(q) + self.subs[3].met(q)
    }

    /// The features that may collide with a rectangle: those the node
    /// holds itself, then what the quarter that the rectangle belongs to
    /// retrieves if it holds all of the rectangle, and else everything in
    /// the quarters that meet it.
    pub open spec fn retrieved(self, q: Rect) -> Seq<Entry<D>>
        decreases self,
    {
        if self.subs.len() == 4 {
            let i = home(self.bounds, q);
            if self.subs[i].bounds.has_rect(q) {
                self.own() + self.subs[i].retrieved(q)
            } else {
                self.own() + self.meeting(q)
            }
        } else {
            self.own()
        }
    }
}

} // verus!
