//! The walk of a tree in order of distance from a probe.

use vstd::prelude::*;
use crate::geom::calc::{Dist, DistEuclidean, DistHaversine, GeomCalc};
use crate::geom::geometry::Geometry;
use crate::model::{Entry, NodeView};
use crate::quadtrees::find::Oracle;
use crate::quadtrees::knn::{expand, sound_item, sound_list, work_views, NodeType, Work};
use crate::quadtrees::worklist::{expanded, lemma_load_expanded, load, WorkKind, WorkView};
use crate::tree_node::Node;

verus! {

/// The next feature of a walk and the work list left after it: nodes are
/// opened until a feature is the nearest item. A feature or a node that
/// cannot be measured is passed over.
pub open spec fn stepped<D>(list: Seq<WorkView<D>>, o: Oracle) -> (
    Option<(Entry<D>, Dist)>,
    Seq<WorkView<D>>,
)
    decreases load(list),
{
    if list.len() == 0 {
        (None, list)
    } else {
        let top = list.last();
        let rest = list.drop_last();
        match top.kind {
            WorkKind::Child(e) => (Some((e, top.dist)), rest),
            WorkKind::Node(v) => {
                proof {
                    lemma_load_expanded(rest, v, o, true);
                }
                match expanded(rest, v, o, true) {
                    Ok(next) => stepped(next, o),
                    Err(_) => (None, rest),
                }
            },
        }
    }
}

/// A step that gives a feature leaves less to do.
pub proof fn lemma_stepped_load<D>(list: Seq<WorkView<D>>, o: Oracle)
    ensures
        stepped(list, o).0 is Some ==> load(stepped(list, o).1) < load(list),
        stepped(list, o).0 is None ==> list.len() == 0 || load(stepped(list, o).1) < load(list),
    decreases load(list),
{
    if list.len() > 0 {
        let top = list.last();
        let rest = list.drop_last();
        match top.kind {
            WorkKind::Child(e) => {},
            WorkKind::Node(v) => {
                lemma_load_expanded(rest, v, o, true);
                match expanded(rest, v, o, true) {
                    Ok(next) => {
                        lemma_stepped_load(next, o);
                    },
                    Err(_) => {},
                }
            },
        }
    }
}

/// Everything that a walk gives from a work list on, in the order given.
pub open spec fn walk<D>(list: Seq<WorkView<D>>, o: Oracle) -> Seq<(Entry<D>, Dist)>
    decreases load(list),
{
    let (next, rest) = stepped(list, o);
    match next {
        None => Seq::empty(),
        Some(x) => {
            proof {
                lemma_stepped_load(list, o);
            }
            seq![x] + walk(rest, o)
        },
    }
}

/// The work list that a walk starts from: the root, where the probe
/// touches the root bounds, and else nothing.
pub open spec fn walk_start<D>(root: NodeView<D>, o: Oracle) -> Seq<WorkView<D>> {
    match o(Geometry::Rect(root.bounds)) {
        Ok(d) => if d == 0 {
            seq![WorkView { kind: WorkKind::Node(root), dist: d }]
        } else {
            Seq::empty()
        },
        Err(_) => Seq::empty(),
    }
}

/// A walk in progress.
pub struct SortIter<'a, 'b, D, X> {
    stack: Vec<Work<'a, D>>,
    calc: GeomCalc<'b, X>,
    pool: Ghost<Seq<Entry<D>>>,
}

impl<'a, 'b, D, X: DistEuclidean + DistHaversine> View for SortIter<'a, 'b, D, X> {
    type V = Seq<WorkView<D>>;

    closed spec fn view(&self) -> Seq<WorkView<D>> {
        work_views(self.stack@)
    }
}

/// The view of a step of a walk.
pub open spec fn step_seen<'a, D>(r: Option<(&'a Entry<D>, Dist)>) -> Option<(Entry<D>, Dist)> {
    match r {
        Some((e, d)) => Some((*e, d)),
        None => None,
    }
}

impl<'a, 'b, D, X: DistEuclidean + DistHaversine> SortIter<'a, 'b, D, X> {
    /// The probe and the geometry of the walk.
    pub closed spec fn calc(&self) -> GeomCalc<'b, X> {
        self.calc
    }

    /// The features of the tree that is walked.
    pub closed spec fn pool(&self) -> Seq<Entry<D>> {
        self.pool@
    }

    /// What waits is out of the tree, with distances that measuring gave.
    pub closed spec fn wf(&self) -> bool {
        sound_list(&self.calc, self.pool@, work_views(self.stack@))
    }

    /// Starts a walk of the tree under `root`.
    pub fn new(root: &'a Node<D>, calc: GeomCalc<'b, X>) -> (it: Self)
        ensures
            it.wf(),
            it.calc() == calc,
            it.pool() == root@.items(),
            forall|o: Oracle| #[trigger] calc.agrees(o) ==> it@ == walk_start(root@, o),
    {
        let mut stack: Vec<Work<'a, D>> = Vec::new();
        let d = calc.dist_bbox(root.bounds());
        proof {
            assert forall|o: Oracle| #[trigger] calc.agrees(o) implies o(
                Geometry::Rect(root@.bounds),
            ) == d by {
                calc.lemma_agrees(o, Geometry::Rect(root@.bounds), d);
            }
            assert(work_views(stack@) =~= Seq::empty());
        }
        match d {
            Ok(d) => {
                if d == 0 {
                    stack.push(Work { item: NodeType::Node(root), dist: d });
                    proof {
                        assert(work_views(stack@) =~= seq![
                            WorkView { kind: WorkKind::Node(root@), dist: d },
                        ]);
                    }
                }
            },
            Err(_) => {},
        }
        SortIter { stack, calc, pool: Ghost(root@.items()) }
    }

    /// The next feature in order of distance, with its distance; `None`
    /// when the walk is over.
    pub fn next_entry(&mut self) -> (res: Option<(&'a Entry<D>, Dist)>)
        requires
            old(self).wf(),
        ensures
            final(self).wf(),
            final(self).calc() == old(self).calc(),
            final(self).pool() == old(self).pool(),
            res matches Some((e, d)) ==> old(self).pool().contains(*e) && old(self).calc().measures(
                e.geom.spec_as_geom(),
                Ok(d),
            ),
            forall|o: Oracle| #[trigger]
                old(self).calc().agrees(o) ==> (step_seen(res), final(self)@) == stepped(
                    old(self)@,
                    o,
                ),
    {
        let ghost pool = self.pool@;
        loop
            invariant
                self.calc == old(self).calc,
                self.pool == old(self).pool,
                pool == self.pool@,
                sound_list(&self.calc, pool, work_views(self.stack@)),
                forall|o: Oracle| #[trigger]
                    self.calc.agrees(o) ==> stepped(old(self)@, o) == stepped(
                        work_views(self.stack@),
                        o,
                    ),
            decreases load(work_views(self.stack@)),
        {
            let ghost views = work_views(self.stack@);
            let top = match self.stack.pop() {
                None => {
                    return None;
                },
                Some(w) => w,
            };
            proof {
                assert(views.last() == top@);
                assert(work_views(self.stack@) =~= views.drop_last());
                assert(sound_item(&self.calc, pool, views[views.len() - 1]));
            }
            match top.item {
                NodeType::Child(e) => {
                    return Some((e, top.dist));
                },
                NodeType::Node(n) => {
                    let _ = expand(&mut self.stack, n, &self.calc, true, Ghost(pool));
                },
            }
        }
    }

    /// The datum of the next feature in order of distance, with the
    /// distance; `None` when the walk is over.
    pub fn next(&mut self) -> (res: Option<(&'a D, Dist)>)
        requires
            old(self).wf(),
        ensures
            final(self).wf(),
            final(self).calc() == old(self).calc(),
            final(self).pool() == old(self).pool(),
            res matches Some((d, dist)) ==> exists|e: Entry<D>|
                #![auto]
                old(self).pool().contains(e) && e.datum == *d && old(self).calc().measures(
                    e.geom.spec_as_geom(),
                    Ok(dist),
                ),
            forall|o: Oracle| #[trigger]
                old(self).calc().agrees(o) ==> final(self)@ == stepped(old(self)@, o).1
                    && match stepped(old(self)@, o).0 {
                    Some((e, dist)) => res matches Some((d, at)) && *d == e.datum && at == dist,
                    None => res is None,
                },
    {
        match self.next_entry() {
            Some((e, d)) => Some((&e.datum, d)),
            None => None,
        }
    }
}

} // verus!
