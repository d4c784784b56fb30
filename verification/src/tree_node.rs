//! The node of a quadtree: a region, the features that live in it, and,
//! once it has been subdivided, its four quarters.

use vstd::prelude::*;
use crate::geom::math::{rect_in_rect, rects_intersect};
use crate::geom::point::Point;
use crate::geom::rect::Rect;
use crate::model::{home, Entry, NodeView};
use crate::node::{find_sub_node_of_rect, quadrant};
use crate::placing::{lemma_inserted_with, lemma_placed, lemma_split, same_frame};
use crate::structure::{lemma_well_placed, well_placed};

verus! {

/// The values that a sequence of references points to.
pub open spec fn targets<T>(refs: Seq<&T>) -> Seq<T> {
    Seq::new(refs.len(), |i: int| *refs[i])
}

/// A node of a quadtree. The sub-nodes, once there, are the four quarters of
/// the node's region in the order top left, top right, bottom right, bottom
/// left. They are kept in a vector, which lets a function that goes down
/// the tree be shown to end; the vector holds none or four.
pub struct Node<D> {
    bounds: Rect,
    depth: u8,
    max_depth: u8,
    max_children: usize,
    children: Vec<Entry<D>>,
    stuck_children: Vec<Entry<D>>,
    nodes: Vec<Node<D>>,
}

/// The views of a sequence of nodes.
pub closed spec fn views<D>(ns: Seq<Node<D>>) -> Seq<NodeView<D>>
    decreases ns,
{
    if ns.len() == 0 {
        Seq::empty()
    } else {
        views(ns.drop_last()).push(ns.last().view())
    }
}

impl<D> View for Node<D> {
    type V = NodeView<D>;

    closed spec fn view(&self) -> NodeView<D>
        decreases self,
    {
        NodeView {
            bounds: self.bounds,
            depth: self.depth,
            max_depth: self.max_depth,
            max_children: self.max_children,
            children: self.children@,
            stuck: self.stuck_children@,
            subs: views(self.nodes@),
        }
    }
}

/// `views` goes element by element.
proof fn lemma_views<D>(ns: Seq<Node<D>>)
    ensures
        views(ns).len() == ns.len(),
        forall|i: int| 0 <= i < ns.len() ==> views(ns)[i] == (#[trigger] ns[i])@,
    decreases ns.len(),
{
    if ns.len() > 0 {
        lemma_views(ns.drop_last());
        assert forall|i: int| 0 <= i < ns.len() implies views(ns)[i] == (#[trigger] ns[i])@ by {
            let front = ns.drop_last();
            assert(views(ns) == views(front).push(ns.last()@));
            if i < ns.len() - 1 {
                assert(front[i] == ns[i]);
                assert(views(front)[i] == front[i]@);
            }
        }
    }
}

impl<D> Node<D> {
    /// The sub-nodes of the view are the views of the sub-nodes.
    proof fn lemma_view(&self)
        ensures
            self@.subs.len() == self.nodes@.len(),
            forall|i: int| 0 <= i < self.nodes@.len() ==> self@.subs[i] == (#[trigger] self.nodes@[i])@,
    {
        lemma_views(self.nodes@);
    }

    /// A node with nothing in it.
    pub fn new(bounds: Rect, depth: u8, max_depth: u8, max_children: usize) -> (n: Self)
        ensures
            n@ == NodeView::<D>::leaf(bounds, depth, max_depth, max_children),
    {
        let n = Node {
            bounds,
            depth,
            max_depth,
            max_children,
            children: Vec::new(),
            stuck_children: Vec::new(),
            nodes: Vec::new(),
        };
        assert(n@.subs =~= Seq::empty());
        n
    }

    /// The region of the node.
    pub fn bounds(&self) -> (b: &Rect)
        ensures
            *b == self@.bounds,
    {
        &self.bounds
    }

    /// How far below the root the node is.
    pub fn depth(&self) -> (d: u8)
        ensures
            d == self@.depth,
    {
        self.depth
    }

    /// The depth at which nodes are no longer subdivided.
    pub fn max_depth(&self) -> (d: u8)
        ensures
            d == self@.max_depth,
    {
        self.max_depth
    }

    /// How many children a node takes before it is subdivided.
    pub fn max_children(&self) -> (n: usize)
        ensures
            n == self@.max_children,
    {
        self.max_children
    }

    /// The features that live directly in the node.
    pub fn children(&self) -> (c: &Vec<Entry<D>>)
        ensures
            c@ == self@.children,
    {
        &self.children
    }

    /// The features that reach into more than the quarter they belong to.
    pub fn stuck_children(&self) -> (c: &Vec<Entry<D>>)
        ensures
            c@ == self@.stuck,
    {
        &self.stuck_children
    }

    /// The four quarters, once the node has been subdivided.
    pub fn nodes(&self) -> (subs: Option<&Vec<Node<D>>>)
        ensures
            subs is None <==> self@.subs.len() == 0,
            subs matches Some(ns) ==> ns@.len() == self@.subs.len() && forall|i: int|
                0 <= i < ns@.len() ==> (#[trigger] ns@[i])@ == self@.subs[i],
    {
        proof {
            self.lemma_view();
        }
        if self.nodes.len() == 0 {
            None
        } else {
            Some(&self.nodes)
        }
    }

    /// Puts four empty quarters under a node that has none: the quarters
    /// of its region in the order top left, top right, bottom right, bottom
    /// left, one level down, with the thresholds of the node. The node is
    /// otherwise left as it was; its children stay where they are.
    pub fn subdivide(&mut self)
        requires
            old(self)@.subs.len() == 0,
            old(self)@.bounds.wf(),
            old(self)@.depth < u8::MAX,
        ensures
            final(self)@ == (NodeView { subs: old(self)@.split().subs, ..old(self)@ }),
            final(self)@.subs.len() == 4,
            forall|i: int|
                0 <= i < 4 ==> {
                    &&& final(self)@.sub_matches(i)
                    &&& (#[trigger] final(self)@.subs[i]).items() =~= Seq::empty()
                    &&& final(self)@.subs[i].subs.len() == 0
                    &&& final(self)@.subs[i].bounds.wf()
                    &&& final(self)@.bounds.has_rect(final(self)@.subs[i].bounds)
                },
    {
        proof {
            self.lemma_view();
            crate::node::lemma_quadrants_tile(self@.bounds);
        }
        let depth = self.depth + 1;
        let md = self.max_depth;
        let mc = self.max_children;
        let c = self.bounds.center();
        let lo = self.bounds.min;
        let hi = self.bounds.max;
        let tl = Node::new(Rect { min: lo, max: c }, depth, md, mc);
        let tr = Node::new(
            Rect { min: Point { x: c.x, y: lo.y }, max: Point { x: hi.x, y: c.y } },
            depth,
            md,
            mc,
        );
        let br = Node::new(Rect { min: c, max: hi }, depth, md, mc);
        let bl = Node::new(
            Rect { min: Point { x: lo.x, y: c.y }, max: Point { x: c.x, y: hi.y } },
            depth,
            md,
            mc,
        );
        self.nodes.push(tl);
        self.nodes.push(tr);
        self.nodes.push(br);
        self.nodes.push(bl);
        proof {
            self.lemma_view();
            let want = old(self)@.split().subs;
            assert(self.nodes@[0]@ == want[0]);
            assert(self.nodes@[1]@ == want[1]);
            assert(self.nodes@[2]@ == want[2]);
            assert(self.nodes@[3]@ == want[3]);
            assert(self@.subs =~= want);
            assert forall|i: int| 0 <= i < 4 implies {
                &&& self@.sub_matches(i)
                &&& (#[trigger] self@.subs[i]).items() =~= Seq::empty()
                &&& self@.subs[i].subs.len() == 0
                &&& self@.subs[i].bounds.wf()
                &&& self@.bounds.has_rect(self@.subs[i].bounds)
            } by {
                assert(self@.subs[i] == want[i]);
                assert(quadrant(self@.bounds, i).wf());
            }
        }
    }

    /// Hands a feature down to the quarter it belongs to, or keeps it stuck
    /// here where that quarter does not hold all of it.
    fn place(&mut self, e: Entry<D>)
        requires
            old(self)@.wf(),
            old(self)@.subs.len() == 4,
            old(self)@.admits(e),
        ensures
            final(self)@ == old(self)@.placed(e, (old(self)@.max_depth - old(self)@.depth) as nat),
        decreases old(self)@.max_depth - old(self)@.depth, 0nat,
    {
        proof {
            self.lemma_view();
        }
        let i = find_sub_node_of_rect(&self.bounds, &e.bbox).index();
        assert(i == home(self@.bounds, e.bbox));
        assert(self@.subs[i as int].wf() && self@.sub_matches(i as int));
        if rect_in_rect(self.nodes[i].bounds(), &e.bbox) {
            self.nodes[i].insert(e);
            proof {
                self.lemma_view();
                let fuel = (old(self)@.max_depth - old(self)@.depth) as nat;
                let want = old(self)@.subs.update(
                    i as int,
                    old(self)@.subs[i as int].inserted_with(e, (fuel - 1) as nat),
                );
                assert forall|j: int| 0 <= j < 4 implies self@.subs[j] == want[j] by {
                    assert(self@.subs[j] == self.nodes@[j]@);
                    assert(old(self)@.subs[j] == old(self).nodes@[j]@);
                }
                assert(self@.subs =~= want);
            }
        } else {
            self.stuck_children.push(e);
            proof {
                self.lemma_view();
                assert(self@.subs =~= old(self)@.subs);
            }
        }
    }

    /// Inserts a feature that lies within the node.
    pub fn insert(&mut self, e: Entry<D>)
        requires
            old(self)@.wf(),
            old(self)@.admits(e),
        ensures
            final(self)@ == old(self)@.inserted(e),
            final(self)@.wf(),
            well_placed(final(self)@),
            same_frame(old(self)@, final(self)@),
            final(self)@.items().to_multiset() =~= old(self)@.items().to_multiset().insert(e),
        decreases old(self)@.max_depth - old(self)@.depth, 1nat,
    {
        let ghost fuel = (self@.max_depth - self@.depth) as nat;
        proof {
            self.lemma_view();
            lemma_inserted_with(self@, e, fuel);
            lemma_well_placed(self@.inserted(e));
        }
        if self.nodes.len() == 4 {
            self.place(e);
        } else if self.children.len() >= self.max_children && self.depth < self.max_depth {
            self.subdivide();
            let mut pending: Vec<Entry<D>> = Vec::new();
            std::mem::swap(&mut self.children, &mut pending);
            pending.push(e);
            proof {
                self.lemma_view();
                lemma_split(old(self)@);
                assert(self@.subs =~= old(self)@.split().subs);
                assert(self@ == old(self)@.split());
                assert(pending@ =~= old(self)@.children.push(e));
                assert forall|k: int| 0 <= k < pending@.len() implies self@.admits(
                    #[trigger] pending@[k],
                ) by {
                    if k < old(self)@.children.len() {
                        assert(old(self)@.admits(old(self)@.children[k]));
                    }
                }
            }
            let ghost goal = self@.placed_all(pending@, fuel);
            while pending.len() > 0
                invariant
                    self@.wf(),
                    self@.subs.len() == 4,
                    same_frame(old(self)@, self@),
                    fuel == self@.max_depth - self@.depth,
                    forall|k: int| 0 <= k < pending@.len() ==> self@.admits(#[trigger] pending@[k]),
                    self@.placed_all(pending@, fuel) == goal,
                decreases pending@.len(),
            {
                let ghost before = self@;
                let ghost rest = pending@;
                let p = pending.remove(0);
                proof {
                    assert(pending@ =~= rest.drop_first());
                    assert(p == rest[0]);
                    lemma_placed(before, p, fuel);
                    assert forall|k: int| 0 <= k < pending@.len() implies before.admits(
                        #[trigger] pending@[k],
                    ) by {
                        assert(pending@[k] == rest[k + 1]);
                    }
                }
                self.place(p);
            }
        } else {
            self.children.push(e);
            proof {
                self.lemma_view();
                assert(self@.subs =~= old(self)@.subs);
            }
        }
    }

    /// Appends the debugging dump of the node and of all below it.
    pub fn display_into(&self, out: &mut String)
        ensures
            final(out)@ == old(out)@ + self@.dump(),
        decreases self,
    {
        proof {
            self.lemma_view();
        }
        let ghost start = out@;
        let count: u128 = self.children.len() as u128 + self.stuck_children.len() as u128;
        crate::text::push_node_line(out, self.depth, self.bounds.min.x, self.bounds.min.y, count);
        if self.nodes.len() == 4 {
            self.nodes[0].display_into(out);
            self.nodes[1].display_into(out);
            self.nodes[2].display_into(out);
            self.nodes[3].display_into(out);
            assert(out@ =~= start + self@.dump());
        }
    }

    /// Appends everything the node holds, in preorder.
    pub fn descendants_into<'a>(&'a self, out: &mut Vec<&'a Entry<D>>)
        ensures
            targets(final(out)@) == targets(old(out)@) + self@.items(),
        decreases self,
    {
        proof {
            self.lemma_view();
        }
        let ghost t0 = targets(out@);
        append_refs(&self.children, out);
        append_refs(&self.stuck_children, out);
        assert(targets(out@) =~= t0 + self@.own());
        if self.nodes.len() == 4 {
            self.nodes[0].descendants_into(out);
            self.nodes[1].descendants_into(out);
            self.nodes[2].descendants_into(out);
            self.nodes[3].descendants_into(out);
            assert(targets(out@) =~= t0 + (self@.own() + self@.below()));
        } else {
            assert(targets(out@) =~= t0 + (self@.own() + self@.below()));
        }
    }

    /// Everything the node holds, in preorder: its own features first, then
    /// those of each quarter in index order.
    pub fn descendants(&self) -> (found: Vec<&Entry<D>>)
        ensures
            targets(found@) == self@.items(),
    {
        let mut found: Vec<&Entry<D>> = Vec::new();
        assert(targets(found@) =~= Seq::empty());
        self.descendants_into(&mut found);
        assert(targets(found@) =~= self@.items());
        found
    }

    /// Appends everything the node holds if its region meets the rectangle.
    fn met_into<'a>(&'a self, q: &Rect, out: &mut Vec<&'a Entry<D>>)
        requires
            self@.bounds.wf(),
            q.wf(),
        ensures
            targets(final(out)@) == targets(old(out)@) + self@.met(*q),
    {
        if rects_intersect(&self.bounds, q) {
            self.descendants_into(out);
        } else {
            assert(targets(out@) =~= targets(out@) + Seq::empty());
        }
    }

    /// Appends what the node holds itself.
    fn own_into<'a>(&'a self, out: &mut Vec<&'a Entry<D>>)
        ensures
            targets(final(out)@) == targets(old(out)@) + self@.own(),
    {
        let ghost t0 = targets(out@);
        append_refs(&self.children, out);
        append_refs(&self.stuck_children, out);
        assert(targets(out@) =~= t0 + self@.own());
    }

    /// Appends everything in the quarters that meet the rectangle.
    fn meeting_into<'a>(&'a self, q: &Rect, out: &mut Vec<&'a Entry<D>>)
        requires
            self@.subs.len() == 4,
            forall|j: int| 0 <= j < 4 ==> (#[trigger] self@.subs[j]).bounds.wf(),
            q.wf(),
        ensures
            targets(final(out)@) == targets(old(out)@) + self@.meeting(*q),
    {
        proof {
            self.lemma_view();
        }
        let ghost t0 = targets(out@);
        assert(self@.subs[0].bounds.wf() && self@.subs[1].bounds.wf());
        assert(self@.subs[2].bounds.wf() && self@.subs[3].bounds.wf());
        self.nodes[0].met_into(q, out);
        self.nodes[1].met_into(q, out);
        self.nodes[2].met_into(q, out);
        self.nodes[3].met_into(q, out);
        assert(targets(out@) =~= t0 + self@.meeting(*q));
    }

    /// Appends the features that may collide with the rectangle.
    pub fn retrieve_into<'a>(&'a self, q: &Rect, out: &mut Vec<&'a Entry<D>>)
        requires
            self@.wf(),
            q.wf(),
        ensures
            targets(final(out)@) == targets(old(out)@) + self@.retrieved(*q),
        decreases self,
    {
        proof {
            self.lemma_view();
        }
        let ghost t0 = targets(out@);
        self.own_into(out);
        if self.nodes.len() == 4 {
            let i = find_sub_node_of_rect(&self.bounds, q).index();
            assert(i == home(self@.bounds, *q));
            assert(forall|j: int| 0 <= j < 4 ==> (#[trigger] self@.subs[j]).wf());
            if rect_in_rect(self.nodes[i].bounds(), q) {
                self.nodes[i].retrieve_into(q, out);
                assert(targets(out@) =~= t0 + (self@.own() + self@.subs[i as int].retrieved(*q)));
            } else {
                self.meeting_into(q, out);
                assert(targets(out@) =~= t0 + (self@.own() + self@.meeting(*q)));
            }
        } else {
            assert(self@.subs.len() == 0);
        }
    }

    /// The features that may collide with a rectangle: those the node
    /// holds itself, then what the quarter that the rectangle belongs to
    /// retrieves if it holds all of the rectangle, and else everything in
    /// the quarters that meet it.
    pub fn retrieve(&self, q: &Rect) -> (found: Vec<&Entry<D>>)
        requires
            self@.wf(),
            q.wf(),
        ensures
            targets(found@) == self@.retrieved(*q),
    {
        let mut found: Vec<&Entry<D>> = Vec::new();
        assert(targets(found@) =~= Seq::empty());
        self.retrieve_into(q, &mut found);
        assert(targets(found@) =~= self@.retrieved(*q));
        found
    }
}

/// Appends a reference to each element of `src`.
pub fn append_refs<'a, T>(src: &'a Vec<T>, out: &mut Vec<&'a T>)
    ensures
        targets(final(out)@) == targets(old(out)@) + src@,
{
    let mut k: usize = 0;
    assert(targets(out@) =~= targets(old(out)@) + src@.subrange(0, 0));
    while k < src.len()
        invariant
            k <= src@.len(),
            targets(out@) == targets(old(out)@) + src@.subrange(0, k as int),
        decreases src@.len() - k,
    {
        let ghost before = out@;
        out.push(&src[k]);
        proof {
            assert(targets(out@) =~= targets(before).push(src@[k as int]));
            assert(src@.subrange(0, k + 1) =~= src@.subrange(0, k as int).push(src@[k as int]));
            assert(targets(out@) =~= targets(old(out)@) + src@.subrange(0, k + 1));
        }
        k += 1;
    }
    assert(src@.subrange(0, k as int) =~= src@);
}

/// The node of a `PointQuadTree`: nothing is ever stuck in it.
pub type PointNode<D> = Node<D>;

/// The node of a `BoundsQuadTree`.
pub type BoundsNode<D> = Node<D>;

} // verus!
