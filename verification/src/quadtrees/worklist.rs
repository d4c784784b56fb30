//! The work list of the best-first searches: nodes and features waiting to
//! be looked at, kept in order of distance with the nearest last.

use vstd::prelude::*;
use crate::error::Error;
use crate::geom::calc::{Dist, UNBOUNDED};
use crate::geom::geometry::Geometry;
use crate::model::{Entry, NodeView};
use crate::quadtrees::find::Oracle;

verus! {

/// What waits in the work list: a node still to be opened, or a feature.
pub enum WorkKind<D> {
    Node(NodeView<D>),
    Child(Entry<D>),
}

/// An item of the work list with its distance from the probe.
pub struct WorkView<D> {
    pub kind: WorkKind<D>,
    pub dist: Dist,
}

/// The number of nodes and features in and below a node.
pub open spec fn weight<D>(v: NodeView<D>) -> nat
    decreases v,
{
    1 + v.own().len() + if v.subs.len() == 4 {
        weight(v.subs[0]) + weight(v.subs[1]) + weight(v.subs[2]) + weight(v.subs[3])
    } else {
        0
    }
}

/// The number of nodes and features that an item stands for.
pub open spec fn item_weight<D>(w: WorkView<D>) -> nat {
    match w.kind {
        WorkKind::Node(v) => weight(v),
        WorkKind::Child(_) => 1,
    }
}

/// The number of nodes and features that a work list stands for.
pub open spec fn load<D>(list: Seq<WorkView<D>>) -> nat
    decreases list.len(),
{
    if list.len() == 0 {
        0
    } else {
        load(list.drop_last()) + item_weight(list.last())
    }
}

/// Where a new item with distance `d` goes: behind every item that is at
/// least as far.
pub open spec fn slot<D>(list: Seq<WorkView<D>>, d: Dist) -> int
    decreases list.len(),
{
    if list.len() == 0 {
        0
    } else if list.last().dist >= d {
        list.len() as int
    } else {
        slot(list.drop_last(), d)
    }
}

/// The work list with a new item in its place.
pub open spec fn slotted<D>(list: Seq<WorkView<D>>, w: WorkView<D>) -> Seq<WorkView<D>> {
    list.insert(slot(list, w.dist), w)
}

/// The distance of a shape as a search takes it: measuring must succeed
/// and give a finite number.
pub open spec fn strict(o: Oracle, g: Geometry) -> Result<Dist, Error> {
    match o(g) {
        Err(x) => Err(x),
        Ok(d) => if d == UNBOUNDED {
            Err(Error::InvalidDistance)
        } else {
            Ok(d)
        },
    }
}

/// The work list after the features were added in turn, or the first
/// error. With `lenient`, a feature that cannot be measured is left out
/// instead.
pub open spec fn with_entries<D>(
    list: Seq<WorkView<D>>,
    es: Seq<Entry<D>>,
    o: Oracle,
    lenient: bool,
) -> Result<Seq<WorkView<D>>, Error>
    decreases es.len(),
{
    if es.len() == 0 {
        Ok(list)
    } else {
        match strict(o, es[0].geom) {
            Err(x) => if lenient {
                with_entries(list, es.drop_first(), o, lenient)
            } else {
                Err(x)
            },
            Ok(d) => with_entries(
                slotted(list, WorkView { kind: WorkKind::Child(es[0]), dist: d }),
                es.drop_first(),
                o,
                lenient,
            ),
        }
    }
}

/// The work list after a node was added, or the error met so far or now.
/// With `lenient`, a node whose region cannot be measured is left out
/// instead.
pub open spec fn with_node<D>(
    r: Result<Seq<WorkView<D>>, Error>,
    v: NodeView<D>,
    o: Oracle,
    lenient: bool,
) -> Result<Seq<WorkView<D>>, Error> {
    match r {
        Err(x) => Err(x),
        Ok(list) => match strict(o, Geometry::Rect(v.bounds)) {
            Err(x) => if lenient {
                Ok(list)
            } else {
                Err(x)
            },
            Ok(d) => Ok(slotted(list, WorkView { kind: WorkKind::Node(v), dist: d })),
        },
    }
}

/// The work list after a node was opened: its own features were added, and
/// then its quarters in index order.
pub open spec fn expanded<D>(list: Seq<WorkView<D>>, v: NodeView<D>, o: Oracle, lenient: bool) -> Result<
    Seq<WorkView<D>>,
    Error,
> {
    let a = with_entries(list, v.own(), o, lenient);
    if v.subs.len() == 4 {
        with_node(
            with_node(with_node(with_node(a, v.subs[0], o, lenient), v.subs[1], o, lenient), v.subs[2], o, lenient),
            v.subs[3],
            o,
            lenient,
        )
    } else {
        a
    }
}

/// Taking an item out of a list takes its weight off the load.
pub proof fn lemma_load_insert<D>(list: Seq<WorkView<D>>, j: int, w: WorkView<D>)
    requires
        0 <= j <= list.len(),
    ensures
        load(list.insert(j, w)) == load(list) + item_weight(w),
    decreases list.len(),
{
    let after = list.insert(j, w);
    if j == list.len() {
        assert(after.drop_last() =~= list);
        assert(after.last() == w);
    } else {
        assert(after.drop_last() =~= list.drop_last().insert(j, w));
        assert(after.last() == list.last());
        lemma_load_insert(list.drop_last(), j, w);
    }
}

/// The place for a new item is a place in the list.
pub proof fn lemma_slot_range<D>(list: Seq<WorkView<D>>, d: Dist)
    ensures
        0 <= slot(list, d) <= list.len(),
    decreases list.len(),
{
    if list.len() > 0 && list.last().dist < d {
        lemma_slot_range(list.drop_last(), d);
    }
}

/// Adding features adds at most one to the load for each.
pub proof fn lemma_load_entries<D>(
    list: Seq<WorkView<D>>,
    es: Seq<Entry<D>>,
    o: Oracle,
    lenient: bool,
)
    ensures
        with_entries(list, es, o, lenient) matches Ok(l) ==> load(l) <= load(list) + es.len(),
    decreases es.len(),
{
    if es.len() > 0 {
        match strict(o, es[0].geom) {
            Err(x) => {
                if lenient {
                    lemma_load_entries(list, es.drop_first(), o, lenient);
                }
            },
            Ok(d) => {
                let w = WorkView { kind: WorkKind::Child(es[0]), dist: d };
                lemma_slot_range(list, d);
                lemma_load_insert(list, slot(list, d), w);
                lemma_load_entries(slotted(list, w), es.drop_first(), o, lenient);
            },
        }
    }
}

/// Adding a node adds at most its weight to the load.
pub proof fn lemma_load_node<D>(
    r: Result<Seq<WorkView<D>>, Error>,
    v: NodeView<D>,
    o: Oracle,
    lenient: bool,
)
    ensures
        with_node(r, v, o, lenient) matches Ok(l) ==> r is Ok && load(l) <= load(r->Ok_0) + weight(v),
{
    if r is Ok {
        let list = r->Ok_0;
        match strict(o, Geometry::Rect(v.bounds)) {
            Err(x) => {},
            Ok(d) => {
                let w = WorkView { kind: WorkKind::Node(v), dist: d };
                lemma_slot_range(list, d);
                lemma_load_insert(list, slot(list, d), w);
            },
        }
    }
}

/// Opening a node in place of holding it takes one off the load.
pub proof fn lemma_load_expanded<D>(
    list: Seq<WorkView<D>>,
    v: NodeView<D>,
    o: Oracle,
    lenient: bool,
)
    ensures
        expanded(list, v, o, lenient) matches Ok(l) ==> load(l) + 1 <= load(list) + weight(v),
{
    let a = with_entries(list, v.own(), o, lenient);
    lemma_load_entries(list, v.own(), o, lenient);
    if v.subs.len() == 4 {
        let b = with_node(a, v.subs[0], o, lenient);
        let c = with_node(b, v.subs[1], o, lenient);
        let d = with_node(c, v.subs[2], o, lenient);
        lemma_load_node(a, v.subs[0], o, lenient);
        lemma_load_node(b, v.subs[1], o, lenient);
        lemma_load_node(c, v.subs[2], o, lenient);
        lemma_load_node(d, v.subs[3], o, lenient);
    }
}

} // verus!
