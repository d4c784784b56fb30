//! The k nearest features: nodes and features are taken from the work
//! list nearest first, a node is opened, a feature is a result.

use vstd::prelude::*;
use crate::error::Error;
use crate::geom::calc::{Dist, DistEuclidean, DistHaversine, GeomCalc, UNBOUNDED};
use crate::geom::geometry::Geometry;
use crate::model::{Entry, NodeView};
use crate::quadtrees::find::Oracle;
use crate::quadtrees::worklist::{
    expanded, item_weight, lemma_load_expanded, lemma_load_insert, lemma_slot_range, load, slot,
    slotted, strict, weight, with_entries, with_node, WorkKind, WorkView,
};
use crate::tree_node::Node;

verus! {

/// The results of a search that goes on from a work list and the results
/// so far: the nearest item is taken; beyond `r` the search ends; a
/// feature is a result, and the `k`-th ends the search; a node is opened.
pub open spec fn knn_run<D>(
    list: Seq<WorkView<D>>,
    results: Seq<(Entry<D>, Dist)>,
    o: Oracle,
    k: nat,
    r: Dist,
) -> Result<Seq<(Entry<D>, Dist)>, Error>
    decreases load(list),
{
    if list.len() == 0 {
        Ok(results)
    } else {
        let top = list.last();
        let rest = list.drop_last();
        if top.dist > r {
            Ok(results)
        } else {
            match top.kind {
                WorkKind::Child(e) => {
                    let more = results.push((e, top.dist));
                    if more.len() >= k {
                        Ok(more)
                    } else {
                        knn_run(rest, more, o, k, r)
                    }
                },
                WorkKind::Node(v) => {
                    proof {
                        lemma_load_expanded(rest, v, o, false);
                    }
                    match expanded(rest, v, o, false) {
                        Err(x) => Err(x),
                        Ok(next) => knn_run(next, results, o, k, r),
                    }
                },
            }
        }
    }
}

/// The `k` nearest features within `r` of the probe, nearest first,
/// each with its distance.
///
/// `OutOfBounds` where the probe does not touch the root bounds, and
/// the first error that measuring gives on the way; a distance that is not
/// finite is the error `InvalidDistance`.
pub open spec fn knn_found<D>(root: NodeView<D>, o: Oracle, k: nat, r: Dist) -> Result<
    Seq<(Entry<D>, Dist)>,
    Error,
> {
    match o(Geometry::Rect(root.bounds)) {
        Err(x) => Err(x),
        Ok(d0) => if d0 != 0 {
            Err(Error::OutOfBounds)
        } else if k == 0 {
            Ok(Seq::empty())
        } else {
            knn_run(seq![WorkView { kind: WorkKind::Node(root), dist: d0 }], Seq::empty(), o, k, r)
        },
    }
}

/// What waits in the work list, by reference.
pub enum NodeType<'a, D> {
    Node(&'a Node<D>),
    Child(&'a Entry<D>),
}

/// An item of the work list.
pub struct Work<'a, D> {
    pub item: NodeType<'a, D>,
    pub dist: Dist,
}

impl<'a, D> View for Work<'a, D> {
    type V = WorkView<D>;

    open spec fn view(&self) -> WorkView<D> {
        WorkView {
            kind: match self.item {
                NodeType::Node(n) => WorkKind::Node(n@),
                NodeType::Child(e) => WorkKind::Child(*e),
            },
            dist: self.dist,
        }
    }
}

/// The views of the items of a work list.
pub open spec fn work_views<'a, D>(list: Seq<Work<'a, D>>) -> Seq<WorkView<D>> {
    Seq::new(list.len(), |i: int| list[i]@)
}

/// Whether an item is, or holds, a feature out of `pool`, and carries a
/// distance that measuring gave.
pub open spec fn sound_item<'a, X: DistEuclidean + DistHaversine, D>(
    calc: &GeomCalc<'a, X>,
    pool: Seq<Entry<D>>,
    w: WorkView<D>,
) -> bool {
    match w.kind {
        WorkKind::Child(e) => pool.contains(e) && calc.measures(e.geom.spec_as_geom(), Ok(w.dist)),
        WorkKind::Node(v) => forall|e: Entry<D>| #[trigger] v.items().contains(e) ==> pool.contains(e),
    }
}

/// Every item of the list is sound.
pub open spec fn sound_list<'a, X: DistEuclidean + DistHaversine, D>(
    calc: &GeomCalc<'a, X>,
    pool: Seq<Entry<D>>,
    list: Seq<WorkView<D>>,
) -> bool {
    forall|i: int| 0 <= i < list.len() ==> sound_item(calc, pool, #[trigger] list[i])
}

/// Puts an item in its place in the work list.
pub fn slot_in<'a, D>(list: &mut Vec<Work<'a, D>>, w: Work<'a, D>)
    ensures
        work_views(final(list)@) == slotted(work_views(old(list)@), w@),
        load(work_views(final(list)@)) == load(work_views(old(list)@)) + item_weight(w@),
{
    let ghost views = work_views(list@);
    let mut j: usize = list.len();
    proof {
        assert(views.subrange(0, j as int) =~= views);
    }
    while j > 0 && list[j - 1].dist < w.dist
        invariant
            j <= list@.len(),
            list@ == old(list)@,
            views == work_views(list@),
            slot(views, w.dist) == slot(views.subrange(0, j as int), w.dist),
        decreases j,
    {
        proof {
            let front = views.subrange(0, j as int);
            assert(front.last() == views[j - 1]);
            assert(front.drop_last() =~= views.subrange(0, j - 1));
        }
        j -= 1;
    }
    proof {
        let front = views.subrange(0, j as int);
        if j > 0 {
            assert(front.last() == views[j - 1]);
        }
        assert(slot(views, w.dist) == j);
    }
    list.insert(j, w);
    proof {
        assert(work_views(list@) =~= views.insert(j as int, w@));
        lemma_load_insert(views, j as int, w@);
    }
}

/// What adding to the work list did is what the model says: the list, where
/// the model has one, and else the model's error.
pub open spec fn list_outcome<D>(
    model: Result<Seq<WorkView<D>>, Error>,
    res: Result<(), Error>,
    after: Seq<WorkView<D>>,
) -> bool {
    match model {
        Ok(l) => res is Ok && after == l,
        Err(x) => res == Err::<(), Error>(x),
    }
}

/// Adds the features of a list to the work list.
fn push_entries<'a, 'b, X: DistEuclidean + DistHaversine, D>(
    list: &mut Vec<Work<'a, D>>,
    es: &'a Vec<Entry<D>>,
    calc: &GeomCalc<'b, X>,
    lenient: bool,
    Ghost(pool): Ghost<Seq<Entry<D>>>,
) -> (res: Result<(), Error>)
    requires
        sound_list(calc, pool, work_views(old(list)@)),
        forall|e: Entry<D>| #[trigger] es@.contains(e) ==> pool.contains(e),
    ensures
        res is Ok ==> sound_list(calc, pool, work_views(final(list)@)),
        res is Ok ==> load(work_views(final(list)@)) <= load(work_views(old(list)@)) + es@.len(),
        lenient ==> res is Ok,
        forall|o: Oracle| #[trigger]
            calc.agrees(o) ==> list_outcome(
                with_entries(work_views(old(list)@), es@, o, lenient),
                res,
                work_views(final(list)@),
            ),
{
    let ghost start = work_views(list@);
    let mut i: usize = 0;
    proof {
        assert(es@.subrange(0, es@.len() as int) =~= es@);
    }
    while i < es.len()
        invariant
            i <= es@.len(),
            start == work_views(old(list)@),
            load(work_views(list@)) <= load(start) + i,
            sound_list(calc, pool, work_views(list@)),
            forall|e: Entry<D>| #[trigger] es@.contains(e) ==> pool.contains(e),
            forall|o: Oracle| #[trigger]
                calc.agrees(o) ==> with_entries(start, es@, o, lenient) == with_entries(
                    work_views(list@),
                    es@.subrange(i as int, es@.len() as int),
                    o,
                    lenient,
                ),
        decreases es@.len() - i,
    {
        let e = &es[i];
        let ghost rest = es@.subrange(i as int, es@.len() as int);
        let ghost before = work_views(list@);
        proof {
            assert(rest[0] == es@[i as int]);
            assert(rest.drop_first() =~= es@.subrange(i + 1, es@.len() as int));
            assert(es@.contains(*e));
        }
        let d = calc.dist_geom(&e.geom.as_geom());
        proof {
            assert forall|o: Oracle| #[trigger] calc.agrees(o) implies o(e.geom) == d by {
                calc.lemma_agrees(o, e.geom, d);
            }
        }
        match d {
            Err(x) => {
                if !lenient {
                    proof {
                        assert forall|o: Oracle| #[trigger] calc.agrees(o) implies with_entries(
                            start,
                            es@,
                            o,
                            lenient,
                        ) == Err::<Seq<WorkView<D>>, Error>(x) by {
                            assert(strict(o, e.geom) == Err::<Dist, Error>(x));
                        }
                    }
                    return Err(x);
                }
            },
            Ok(d) => {
                if d == UNBOUNDED {
                    if !lenient {
                        proof {
                            assert forall|o: Oracle| #[trigger] calc.agrees(o) implies with_entries(
                                start,
                                es@,
                                o,
                                lenient,
                            ) == Err::<Seq<WorkView<D>>, Error>(Error::InvalidDistance) by {
                                assert(strict(o, e.geom) == Err::<Dist, Error>(
                                    Error::InvalidDistance,
                                ));
                            }
                        }
                        return Err(Error::InvalidDistance);
                    }
                } else {
                    let w = Work { item: NodeType::Child(e), dist: d };
                    slot_in(list, w);
                    proof {
                        lemma_sound_slotted(calc, pool, before, w@);
                    }
                }
            },
        }
        proof {
            assert forall|o: Oracle| #[trigger] calc.agrees(o) implies with_entries(
                start,
                es@,
                o,
                lenient,
            ) == with_entries(
                work_views(list@),
                es@.subrange(i + 1, es@.len() as int),
                o,
                lenient,
            ) by {
                assert(o(e.geom) == d);
            }
        }
        i += 1;
    }
    proof {
        assert(es@.subrange(i as int, es@.len() as int) =~= Seq::empty());
    }
    Ok(())
}

/// A sound list with a sound item put in is sound.
pub proof fn lemma_sound_slotted<'a, X: DistEuclidean + DistHaversine, D>(
    calc: &GeomCalc<'a, X>,
    pool: Seq<Entry<D>>,
    list: Seq<WorkView<D>>,
    w: WorkView<D>,
)
    requires
        sound_list(calc, pool, list),
        sound_item(calc, pool, w),
    ensures
        sound_list(calc, pool, slotted(list, w)),
{
    lemma_slot_range(list, w.dist);
    let j = slot(list, w.dist);
    let after = slotted(list, w);
    assert forall|i: int| 0 <= i < after.len() implies sound_item(calc, pool, #[trigger] after[i]) by {
        if i < j {
            assert(after[i] == list[i]);
        } else if i > j {
            assert(after[i] == list[i - 1]);
        }
    }
}

/// Adding a sequence of features is adding its front and then its back.
pub proof fn lemma_with_entries_concat<D>(
    list: Seq<WorkView<D>>,
    a: Seq<Entry<D>>,
    b: Seq<Entry<D>>,
    o: Oracle,
    lenient: bool,
)
    ensures
        with_entries(list, a + b, o, lenient) == match with_entries(list, a, o, lenient) {
            Err(x) => Err(x),
            Ok(l) => with_entries(l, b, o, lenient),
        },
    decreases a.len(),
{
    if a.len() == 0 {
        assert(a + b =~= b);
    } else {
        assert((a + b)[0] == a[0]);
        assert((a + b).drop_first() =~= a.drop_first() + b);
        match strict(o, a[0].geom) {
            Err(x) => {
                if lenient {
                    lemma_with_entries_concat(list, a.drop_first(), b, o, lenient);
                }
            },
            Ok(d) => {
                lemma_with_entries_concat(
                    slotted(list, WorkView { kind: WorkKind::Child(a[0]), dist: d }),
                    a.drop_first(),
                    b,
                    o,
                    lenient,
                );
            },
        }
    }
}

/// Adds a node to the work list.
fn push_node<'a, 'b, X: DistEuclidean + DistHaversine, D>(
    list: &mut Vec<Work<'a, D>>,
    node: &'a Node<D>,
    calc: &GeomCalc<'b, X>,
    lenient: bool,
    Ghost(pool): Ghost<Seq<Entry<D>>>,
) -> (res: Result<(), Error>)
    requires
        sound_list(calc, pool, work_views(old(list)@)),
        forall|e: Entry<D>| #[trigger] node@.items().contains(e) ==> pool.contains(e),
    ensures
        res is Ok ==> sound_list(calc, pool, work_views(final(list)@)),
        res is Ok ==> load(work_views(final(list)@)) <= load(work_views(old(list)@)) + weight(node@),
        lenient ==> res is Ok,
        forall|o: Oracle| #[trigger]
            calc.agrees(o) ==> list_outcome(
                with_node(Ok(work_views(old(list)@)), node@, o, lenient),
                res,
                work_views(final(list)@),
            ),
{
    let ghost before = work_views(list@);
    let d = calc.dist_bbox(node.bounds());
    proof {
        assert forall|o: Oracle| #[trigger] calc.agrees(o) implies o(Geometry::Rect(node@.bounds))
            == d by {
            calc.lemma_agrees(o, Geometry::Rect(node@.bounds), d);
        }
    }
    match d {
        Err(x) => {
            if lenient {
                Ok(())
            } else {
                Err(x)
            }
        },
        Ok(d) => {
            if d == UNBOUNDED {
                if lenient {
                    Ok(())
                } else {
                    Err(Error::InvalidDistance)
                }
            } else {
                let w = Work { item: NodeType::Node(node), dist: d };
                slot_in(list, w);
                proof {
                    lemma_sound_slotted(calc, pool, before, w@);
                }
                Ok(())
            }
        },
    }
}

/// Opens a node: adds its own features to the work list, and then its
/// quarters in index order.
pub(crate) fn expand<'a, 'b, X: DistEuclidean + DistHaversine, D>(
    list: &mut Vec<Work<'a, D>>,
    node: &'a Node<D>,
    calc: &GeomCalc<'b, X>,
    lenient: bool,
    Ghost(pool): Ghost<Seq<Entry<D>>>,
) -> (res: Result<(), Error>)
    requires
        sound_list(calc, pool, work_views(old(list)@)),
        forall|e: Entry<D>| #[trigger] node@.items().contains(e) ==> pool.contains(e),
    ensures
        res is Ok ==> sound_list(calc, pool, work_views(final(list)@)),
        res is Ok ==> load(work_views(final(list)@)) + 1 <= load(work_views(old(list)@)) + weight(
            node@,
        ),
        lenient ==> res is Ok,
        forall|o: Oracle| #[trigger]
            calc.agrees(o) ==> list_outcome(
                expanded(work_views(old(list)@), node@, o, lenient),
                res,
                work_views(final(list)@),
            ),
{
    let ghost l0 = work_views(list@);
    proof {
        crate::quadtrees::find::lemma_items_contain(node@);
        assert forall|o: Oracle| #[trigger] calc.agrees(o) implies with_entries(
            l0,
            node@.own(),
            o,
            lenient,
        ) == match with_entries(l0, node@.children, o, lenient) {
            Err(x) => Err(x),
            Ok(l) => with_entries(l, node@.stuck, o, lenient),
        } by {
            lemma_with_entries_concat(l0, node@.children, node@.stuck, o, lenient);
        }
    }
    match push_entries(list, node.children(), calc, lenient, Ghost(pool)) {
        Err(x) => {
            return Err(x);
        },
        Ok(()) => {},
    }
    match push_entries(list, node.stuck_children(), calc, lenient, Ghost(pool)) {
        Err(x) => {
            return Err(x);
        },
        Ok(()) => {},
    }
    match node.nodes() {
        None => Ok(()),
        Some(ns) => {
            if ns.len() == 4 {
                assert(ns@[0]@ == node@.subs[0] && ns@[1]@ == node@.subs[1]);
                assert(ns@[2]@ == node@.subs[2] && ns@[3]@ == node@.subs[3]);
                match push_node(list, &ns[0], calc, lenient, Ghost(pool)) {
                    Err(x) => {
                        return Err(x);
                    },
                    Ok(()) => {},
                }
                match push_node(list, &ns[1], calc, lenient, Ghost(pool)) {
                    Err(x) => {
                        return Err(x);
                    },
                    Ok(()) => {},
                }
                match push_node(list, &ns[2], calc, lenient, Ghost(pool)) {
                    Err(x) => {
                        return Err(x);
                    },
                    Ok(()) => {},
                }
                push_node(list, &ns[3], calc, lenient, Ghost(pool))
            } else {
                Ok(())
            }
        },
    }
}

/// The views of the results of a search.
pub open spec fn hits<'a, D>(found: Seq<(&'a Entry<D>, Dist)>) -> Seq<(Entry<D>, Dist)> {
    Seq::new(found.len(), |i: int| (*found[i].0, found[i].1))
}

/// The view of what a search for several features returned.
pub open spec fn all_hits<'a, D>(r: Result<Vec<(&'a Entry<D>, Dist)>, Error>) -> Result<
    Seq<(Entry<D>, Dist)>,
    Error,
> {
    match r {
        Ok(v) => Ok(hits(v@)),
        Err(x) => Err(x),
    }
}

/// Every result is a feature out of `pool`, within `r`, with a distance
/// that measuring gave for it.
pub open spec fn sound_hits<'a, X: DistEuclidean + DistHaversine, D>(
    calc: &GeomCalc<'a, X>,
    pool: Seq<Entry<D>>,
    found: Seq<(Entry<D>, Dist)>,
    r: Dist,
) -> bool {
    forall|i: int|
        0 <= i < found.len() ==> {
            &&& (#[trigger] found[i]).1 <= r
            &&& pool.contains(found[i].0)
            &&& calc.measures(found[i].0.geom.spec_as_geom(), Ok(found[i].1))
        }
}

/// The `k` nearest features within `r` of the probe, nearest first.
pub fn knn<'a, 'b, X: DistEuclidean + DistHaversine, D>(
    root: &'a Node<D>,
    calc: &GeomCalc<'b, X>,
    k: usize,
    r: Dist,
) -> (res: Result<Vec<(&'a Entry<D>, Dist)>, Error>)
    ensures
        calc.method == crate::geom::CalcMethod::NotSet ==> res is Err && res->Err_0
            == Error::CalcMethodNotSet,
        res matches Ok(v) ==> v@.len() <= k && sound_hits(calc, root@.items(), hits(v@), r),
        forall|o: Oracle| #[trigger]
            calc.agrees(o) ==> all_hits(res) == knn_found(root@, o, k as nat, r),
{
    let ghost pool = root@.items();
    let d0 = calc.dist_bbox(root.bounds());
    proof {
        assert forall|o: Oracle| #[trigger] calc.agrees(o) implies o(Geometry::Rect(root@.bounds))
            == d0 by {
            calc.lemma_agrees(o, Geometry::Rect(root@.bounds), d0);
        }
    }
    let d0 = match d0 {
        Err(x) => {
            return Err(x);
        },
        Ok(d) => d,
    };
    let mut results: Vec<(&'a Entry<D>, Dist)> = Vec::new();
    if d0 != 0 {
        return Err(Error::OutOfBounds);
    }
    if k == 0 {
        assert(hits(results@) =~= Seq::empty());
        return Ok(results);
    }
    let mut list: Vec<Work<'a, D>> = Vec::new();
    list.push(Work { item: NodeType::Node(root), dist: d0 });
    proof {
        assert(work_views(list@) =~= seq![WorkView { kind: WorkKind::Node(root@), dist: d0 }]);
        assert(hits(results@) =~= Seq::empty());
    }
    loop
        invariant
            k > 0,
            calc.method != crate::geom::CalcMethod::NotSet,
            pool == root@.items(),
            results@.len() < k,
            sound_list(calc, pool, work_views(list@)),
            sound_hits(calc, pool, hits(results@), r),
            forall|o: Oracle| #[trigger]
                calc.agrees(o) ==> knn_found(root@, o, k as nat, r) == knn_run(
                    work_views(list@),
                    hits(results@),
                    o,
                    k as nat,
                    r,
                ),
        decreases load(work_views(list@)),
    {
        let ghost views = work_views(list@);
        let ghost so_far = hits(results@);
        let top = match list.pop() {
            None => {
                return Ok(results);
            },
            Some(w) => w,
        };
        proof {
            assert(views.last() == top@);
            assert(work_views(list@) =~= views.drop_last());
            assert(sound_item(calc, pool, views[views.len() - 1]));
        }
        if top.dist > r {
            return Ok(results);
        }
        match top.item {
            NodeType::Child(e) => {
                results.push((e, top.dist));
                proof {
                    assert(hits(results@) =~= so_far.push((*e, top.dist)));
                }
                if results.len() >= k {
                    return Ok(results);
                }
            },
            NodeType::Node(n) => {
                proof {
                    assert(hits(results@) == so_far);
                }
                match expand(&mut list, n, calc, false, Ghost(pool)) {
                    Err(x) => {
                        return Err(x);
                    },
                    Ok(()) => {},
                }
            },
        }
    }
}

/// The results of a search with the datum in place of the feature.
pub open spec fn datum_hits<D>(f: Result<Seq<(Entry<D>, Dist)>, Error>) -> Result<
    Seq<(D, Dist)>,
    Error,
> {
    match f {
        Ok(s) => Ok(Seq::new(s.len(), |i: int| (s[i].0.datum, s[i].1))),
        Err(x) => Err(x),
    }
}

/// The view of what a search for several data returned.
pub open spec fn all_seen<'a, D>(r: Result<Vec<(&'a D, Dist)>, Error>) -> Result<
    Seq<(D, Dist)>,
    Error,
> {
    match r {
        Ok(v) => Ok(Seq::new(v@.len(), |i: int| (*v@[i].0, v@[i].1))),
        Err(x) => Err(x),
    }
}

/// A reference to the datum of each result.
pub fn data_of_hits<'a, D>(found: Vec<(&'a Entry<D>, Dist)>) -> (out: Vec<(&'a D, Dist)>)
    ensures
        out@.len() == found@.len(),
        forall|i: int|
            0 <= i < out@.len() ==> *(#[trigger] out@[i]).0 == found@[i].0.datum && out@[i].1
                == found@[i].1,
{
    let mut out: Vec<(&'a D, Dist)> = Vec::new();
    let mut i: usize = 0;
    while i < found.len()
        invariant
            i <= found@.len(),
            out@.len() == i,
            forall|j: int|
                0 <= j < i ==> *(#[trigger] out@[j]).0 == found@[j].0.datum && out@[j].1
                    == found@[j].1,
        decreases found@.len() - i,
    {
        let (e, d) = found[i];
        out.push((&e.datum, d));
        i += 1;
    }
    out
}

} // verus!
