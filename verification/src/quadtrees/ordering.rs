//! Why the best-first searches give features in order of distance.

use vstd::prelude::*;
use crate::error::Error;
use crate::geom::calc::Dist;
use crate::geom::geometry::Geometry;
use crate::model::{Entry, NodeView};
use crate::quadtrees::find::{lemma_items_contain, Oracle};
use crate::quadtrees::knn::{knn_found, knn_run};
use crate::quadtrees::nearest::{admissible, bounded_below};
use crate::quadtrees::sorted::{lemma_stepped_load, stepped, walk, walk_start};
use crate::quadtrees::worklist::{
    expanded, lemma_load_expanded, load, slot, slotted, strict, with_entries, with_node, WorkKind,
    WorkView,
};

verus! {

/// The feature is the item's, or one in or below the item's node.
pub open spec fn within<D>(w: WorkView<D>, e: Entry<D>) -> bool {
    match w.kind {
        WorkKind::Child(c) => c == e,
        WorkKind::Node(v) => v.items().contains(e),
    }
}

/// The item carries the distance that measuring gives for it, and an
/// item that is a node is measured no farther than the features in it.
pub open spec fn true_item<D>(w: WorkView<D>, o: Oracle) -> bool {
    match w.kind {
        WorkKind::Child(e) => o(e.geom) == Ok::<Dist, Error>(w.dist),
        WorkKind::Node(v) => o(Geometry::Rect(v.bounds)) == Ok::<Dist, Error>(w.dist)
            && admissible(v, o),
    }
}

/// No feature that the item stands for is measured nearer than `floor`.
pub open spec fn above<D>(w: WorkView<D>, o: Oracle, floor: Dist) -> bool {
    forall|e: Entry<D>| #[trigger] within(w, e) ==> (o(e.geom) matches Ok(d) ==> d >= floor)
}

/// The farther items come first.
pub open spec fn descending<D>(list: Seq<WorkView<D>>) -> bool {
    forall|i: int, j: int| 0 <= i < j < list.len() ==> list[i].dist >= list[j].dist
}

/// The work list is in order, its items are true, and nothing it stands
/// for is measured nearer than `floor`.
pub open spec fn ordered<D>(list: Seq<WorkView<D>>, o: Oracle, floor: Dist) -> bool {
    &&& descending(list)
    &&& forall|i: int| 0 <= i < list.len() ==> true_item(#[trigger] list[i], o)
    &&& forall|i: int| 0 <= i < list.len() ==> above(#[trigger] list[i], o, floor)
}

/// The nearer results come first.
pub open spec fn ascending<D>(found: Seq<(Entry<D>, Dist)>) -> bool {
    forall|i: int, j: int| 0 <= i < j < found.len() ==> found[i].1 <= found[j].1
}

/// Nothing that a true item stands for is measured nearer than the item.
pub proof fn lemma_true_item_above<D>(w: WorkView<D>, o: Oracle)
    requires
        true_item(w, o),
    ensures
        above(w, o, w.dist),
{
    assert forall|e: Entry<D>| #[trigger] within(w, e) implies (o(e.geom) matches Ok(d) ==> d
        >= w.dist) by {
        match w.kind {
            WorkKind::Child(c) => {},
            WorkKind::Node(v) => {
                let k = choose|k: int| 0 <= k < v.items().len() && v.items()[k] == e;
                assert(bounded_below(o, v.bounds, v.items()[k]));
            },
        }
    }
}

/// The place for a new item parts an ordered list: before it the items are
/// at least as far, behind it they are nearer.
pub proof fn lemma_slot_parts<D>(list: Seq<WorkView<D>>, d: Dist)
    requires
        descending(list),
    ensures
        0 <= slot(list, d) <= list.len(),
        forall|i: int| 0 <= i < slot(list, d) ==> list[i].dist >= d,
        forall|i: int| slot(list, d) <= i < list.len() ==> list[i].dist < d,
    decreases list.len(),
{
    if list.len() > 0 {
        if list.last().dist >= d {
        } else {
            let front = list.drop_last();
            assert forall|i: int, j: int| 0 <= i < j < front.len() implies front[i].dist
                >= front[j].dist by {
                assert(front[i] == list[i] && front[j] == list[j]);
            }
            lemma_slot_parts(front, d);
            assert forall|i: int| 0 <= i < slot(list, d) implies list[i].dist >= d by {
                assert(front[i] == list[i]);
            }
            assert forall|i: int| slot(list, d) <= i < list.len() implies list[i].dist < d by {
                if i < front.len() {
                    assert(front[i] == list[i]);
                }
            }
        }
    }
}

/// An ordered list stays ordered when a true item above the floor is put
/// in its place.
pub proof fn lemma_slotted_ordered<D>(list: Seq<WorkView<D>>, w: WorkView<D>, o: Oracle, floor: Dist)
    requires
        ordered(list, o, floor),
        true_item(w, o),
        above(w, o, floor),
    ensures
        ordered(slotted(list, w), o, floor),
{
    lemma_slot_parts(list, w.dist);
    let j = slot(list, w.dist);
    let after = slotted(list, w);
    assert forall|a: int, b: int| 0 <= a < b < after.len() implies after[a].dist
        >= after[b].dist by {
        let x = if a < j { list[a] } else if a == j { w } else { list[a - 1] };
        let y = if b < j { list[b] } else if b == j { w } else { list[b - 1] };
        assert(after[a] == x && after[b] == y);
    }
    assert forall|i: int| 0 <= i < after.len() implies true_item(#[trigger] after[i], o) && above(
        after[i],
        o,
        floor,
    ) by {
        if i < j {
            assert(after[i] == list[i]);
        } else if i > j {
            assert(after[i] == list[i - 1]);
        }
    }
}

/// An ordered list stays ordered when features above the floor are added.
pub proof fn lemma_with_entries_ordered<D>(
    list: Seq<WorkView<D>>,
    es: Seq<Entry<D>>,
    o: Oracle,
    lenient: bool,
    floor: Dist,
)
    requires
        ordered(list, o, floor),
        forall|k: int| 0 <= k < es.len() ==> (o((#[trigger] es[k]).geom) matches Ok(d) ==> d >= floor),
        with_entries(list, es, o, lenient) is Ok,
    ensures
        ordered(with_entries(list, es, o, lenient)->Ok_0, o, floor),
    decreases es.len(),
{
    if es.len() > 0 {
        let rest = es.drop_first();
        assert forall|k: int| 0 <= k < rest.len() implies (o((#[trigger] rest[k]).geom) matches Ok(
            d,
        ) ==> d >= floor) by {
            assert(rest[k] == es[k + 1]);
        }
        match strict(o, es[0].geom) {
            Err(x) => {
                lemma_with_entries_ordered(list, rest, o, lenient, floor);
            },
            Ok(d) => {
                let w = WorkView { kind: WorkKind::Child(es[0]), dist: d };
                assert(above(w, o, floor));
                lemma_slotted_ordered(list, w, o, floor);
                lemma_with_entries_ordered(slotted(list, w), rest, o, lenient, floor);
            },
        }
    }
}

/// An ordered list stays ordered when a node is added whose features lie
/// above the floor.
pub proof fn lemma_with_node_ordered<D>(
    r: Result<Seq<WorkView<D>>, Error>,
    v: NodeView<D>,
    o: Oracle,
    lenient: bool,
    floor: Dist,
)
    requires
        r is Ok ==> ordered(r->Ok_0, o, floor),
        admissible(v, o),
        forall|k: int|
            0 <= k < v.items().len() ==> (o((#[trigger] v.items()[k]).geom) matches Ok(d) ==> d
                >= floor),
        with_node(r, v, o, lenient) is Ok,
    ensures
        ordered(with_node(r, v, o, lenient)->Ok_0, o, floor),
{
    let list = r->Ok_0;
    match strict(o, Geometry::Rect(v.bounds)) {
        Err(x) => {},
        Ok(d) => {
            let w = WorkView { kind: WorkKind::Node(v), dist: d };
            assert forall|e: Entry<D>| #[trigger] within(w, e) implies (o(e.geom) matches Ok(x)
                ==> x >= floor) by {
                let k = choose|k: int| 0 <= k < v.items().len() && v.items()[k] == e;
                assert(v.items()[k] == e);
            }
            lemma_slotted_ordered(list, w, o, floor);
        },
    }
}

/// The features of a part of a node lie above a floor that those of the
/// node lie above.
pub proof fn lemma_part_above<D>(v: NodeView<D>, part: Seq<Entry<D>>, o: Oracle, floor: Dist)
    requires
        forall|e: Entry<D>| #[trigger] part.contains(e) ==> v.items().contains(e),
        forall|k: int|
            0 <= k < v.items().len() ==> (o((#[trigger] v.items()[k]).geom) matches Ok(d) ==> d
                >= floor),
    ensures
        forall|k: int| 0 <= k < part.len() ==> (o((#[trigger] part[k]).geom) matches Ok(d) ==> d >= floor),
{
    assert forall|k: int| 0 <= k < part.len() implies (o((#[trigger] part[k]).geom) matches Ok(d)
        ==> d >= floor) by {
        assert(part.contains(part[k]));
        let j = choose|j: int| 0 <= j < v.items().len() && v.items()[j] == part[k];
        assert(v.items()[j] == part[k]);
    }
}

/// An ordered list stays ordered when a node is opened whose features lie
/// above the floor.
pub proof fn lemma_expanded_ordered<D>(
    list: Seq<WorkView<D>>,
    v: NodeView<D>,
    o: Oracle,
    lenient: bool,
    floor: Dist,
)
    requires
        ordered(list, o, floor),
        admissible(v, o),
        forall|k: int|
            0 <= k < v.items().len() ==> (o((#[trigger] v.items()[k]).geom) matches Ok(d) ==> d
                >= floor),
        expanded(list, v, o, lenient) is Ok,
    ensures
        ordered(expanded(list, v, o, lenient)->Ok_0, o, floor),
{
    lemma_items_contain(v);
    let own = v.own();
    assert forall|e: Entry<D>| #[trigger] own.contains(e) implies v.items().contains(e) by {
        let k = choose|k: int| 0 <= k < own.len() && own[k] == e;
        assert(v.items()[k] == e);
    }
    lemma_part_above(v, own, o, floor);
    let a = with_entries(list, own, o, lenient);
    if v.subs.len() == 4 {
        let b = with_node(a, v.subs[0], o, lenient);
        let c = with_node(b, v.subs[1], o, lenient);
        let d = with_node(c, v.subs[2], o, lenient);
        lemma_with_entries_ordered(list, own, o, lenient, floor);
        lemma_part_above(v, v.subs[0].items(), o, floor);
        lemma_part_above(v, v.subs[1].items(), o, floor);
        lemma_part_above(v, v.subs[2].items(), o, floor);
        lemma_part_above(v, v.subs[3].items(), o, floor);
        assert(admissible(v.subs[0], o) && admissible(v.subs[1], o));
        assert(admissible(v.subs[2], o) && admissible(v.subs[3], o));
        lemma_with_node_ordered(a, v.subs[0], o, lenient, floor);
        lemma_with_node_ordered(b, v.subs[1], o, lenient, floor);
        lemma_with_node_ordered(c, v.subs[2], o, lenient, floor);
        lemma_with_node_ordered(d, v.subs[3], o, lenient, floor);
    } else {
        lemma_with_entries_ordered(list, own, o, lenient, floor);
    }
}

/// Without its nearest item an ordered list is ordered, and nothing it
/// stands for is measured nearer than that item.
pub proof fn lemma_rest_ordered<D>(list: Seq<WorkView<D>>, o: Oracle, floor: Dist)
    requires
        ordered(list, o, floor),
        list.len() > 0,
    ensures
        ordered(list.drop_last(), o, floor),
        above(list.last(), o, floor),
        true_item(list.last(), o),
        list.last().kind is Child ==> list.last().dist >= floor && ordered(
            list.drop_last(),
            o,
            list.last().dist,
        ),
{
    let rest = list.drop_last();
    let top = list.last();
    assert(true_item(list[list.len() - 1], o) && above(list[list.len() - 1], o, floor));
    assert forall|i: int| 0 <= i < rest.len() implies true_item(#[trigger] rest[i], o) && above(
        rest[i],
        o,
        floor,
    ) by {
        assert(rest[i] == list[i]);
    }
    assert forall|i: int, j: int| 0 <= i < j < rest.len() implies rest[i].dist >= rest[j].dist by {
        assert(rest[i] == list[i] && rest[j] == list[j]);
    }
    if top.kind is Child {
        let e = top.kind->Child_0;
        assert(within(top, e));
        assert forall|i: int| 0 <= i < rest.len() implies above(#[trigger] rest[i], o, top.dist) by {
            assert(rest[i] == list[i]);
            lemma_true_item_above(rest[i], o);
            assert(list[i].dist >= list[list.len() - 1].dist);
        }
    }
}

/// Where every node is measured no farther than the features in it, a
/// search that goes on from an ordered work list gives results in order of
/// distance.
pub proof fn lemma_knn_run_ascending<D>(
    list: Seq<WorkView<D>>,
    results: Seq<(Entry<D>, Dist)>,
    o: Oracle,
    k: nat,
    r: Dist,
    floor: Dist,
)
    requires
        ordered(list, o, floor),
        ascending(results),
        results.len() > 0 ==> results.last().1 <= floor,
        knn_run(list, results, o, k, r) is Ok,
    ensures
        ascending(knn_run(list, results, o, k, r)->Ok_0),
    decreases load(list),
{
    if list.len() > 0 {
        let top = list.last();
        let rest = list.drop_last();
        lemma_rest_ordered(list, o, floor);
        if top.dist <= r {
            match top.kind {
                WorkKind::Child(e) => {
                    let more = results.push((e, top.dist));
                    assert forall|i: int, j: int| 0 <= i < j < more.len() implies more[i].1
                        <= more[j].1 by {
                        if j < results.len() {
                            assert(more[i] == results[i] && more[j] == results[j]);
                        } else {
                            assert(more[i] == results[i]);
                            assert(results[i].1 <= results[results.len() - 1].1);
                        }
                    }
                    if more.len() < k {
                        lemma_knn_run_ascending(rest, more, o, k, r, top.dist);
                    }
                },
                WorkKind::Node(v) => {
                    lemma_load_expanded(rest, v, o, false);
                    assert forall|j: int| 0 <= j < v.items().len() implies (o(
                        (#[trigger] v.items()[j]).geom,
                    ) matches Ok(d) ==> d >= floor) by {
                        assert(within(top, v.items()[j]));
                    }
                    lemma_expanded_ordered(rest, v, o, false, floor);
                    lemma_knn_run_ascending(
                        expanded(rest, v, o, false)->Ok_0,
                        results,
                        o,
                        k,
                        r,
                        floor,
                    );
                },
            }
        }
    }
}

/// A search gives no more than `k` results, none farther than `r`.
pub proof fn lemma_knn_run_limits<D>(
    list: Seq<WorkView<D>>,
    results: Seq<(Entry<D>, Dist)>,
    o: Oracle,
    k: nat,
    r: Dist,
)
    requires
        results.len() < k,
        forall|i: int| 0 <= i < results.len() ==> (#[trigger] results[i]).1 <= r,
        knn_run(list, results, o, k, r) is Ok,
    ensures
        knn_run(list, results, o, k, r)->Ok_0.len() <= k,
        forall|i: int|
            0 <= i < knn_run(list, results, o, k, r)->Ok_0.len() ==> (#[trigger] knn_run(
                list,
                results,
                o,
                k,
                r,
            )->Ok_0[i]).1 <= r,
    decreases load(list),
{
    if list.len() > 0 {
        let top = list.last();
        let rest = list.drop_last();
        if top.dist <= r {
            match top.kind {
                WorkKind::Child(e) => {
                    let more = results.push((e, top.dist));
                    assert forall|i: int| 0 <= i < more.len() implies (#[trigger] more[i]).1 <= r by {
                        if i < results.len() {
                            assert(more[i] == results[i]);
                        }
                    }
                    if more.len() < k {
                        lemma_knn_run_limits(rest, more, o, k, r);
                    }
                },
                WorkKind::Node(v) => {
                    lemma_load_expanded(rest, v, o, false);
                    lemma_knn_run_limits(expanded(rest, v, o, false)->Ok_0, results, o, k, r);
                },
            }
        }
    }
}

/// What a search for the `k` nearest features within `r` gives: no more
/// than `k` results, none farther than `r`; and in order of distance,
/// where every node is measured no farther than the features in it.
pub proof fn lemma_knn_is_ordered<D>(root: NodeView<D>, o: Oracle, k: nat, r: Dist)
    requires
        knn_found(root, o, k, r) is Ok,
    ensures
        knn_found(root, o, k, r)->Ok_0.len() <= k,
        forall|i: int|
            0 <= i < knn_found(root, o, k, r)->Ok_0.len() ==> (#[trigger] knn_found(
                root,
                o,
                k,
                r,
            )->Ok_0[i]).1 <= r,
        admissible(root, o) ==> ascending(knn_found(root, o, k, r)->Ok_0),
{
    if k > 0 {
        let d0 = o(Geometry::Rect(root.bounds))->Ok_0;
        let w = WorkView { kind: WorkKind::Node(root), dist: d0 };
        let list = seq![w];
        let none = Seq::<(Entry<D>, Dist)>::empty();
        lemma_knn_run_limits(list, none, o, k, r);
        if admissible(root, o) {
            assert(above(w, o, 0));
            assert(ordered(list, o, 0));
            lemma_knn_run_ascending(list, none, o, k, r, 0);
        }
    }
}

/// A step of a walk from an ordered work list gives a feature no nearer
/// than the floor, and leaves an ordered list with that feature's distance
/// for its floor.
pub proof fn lemma_stepped_ordered<D>(list: Seq<WorkView<D>>, o: Oracle, floor: Dist)
    requires
        ordered(list, o, floor),
        stepped(list, o).0 is Some,
    ensures
        stepped(list, o).0->Some_0.1 >= floor,
        ordered(stepped(list, o).1, o, stepped(list, o).0->Some_0.1),
    decreases load(list),
{
    if list.len() > 0 {
        let top = list.last();
        let rest = list.drop_last();
        lemma_rest_ordered(list, o, floor);
        match top.kind {
            WorkKind::Child(e) => {},
            WorkKind::Node(v) => {
                lemma_load_expanded(rest, v, o, true);
                match expanded(rest, v, o, true) {
                    Ok(next) => {
                        assert forall|j: int| 0 <= j < v.items().len() implies (o(
                            (#[trigger] v.items()[j]).geom,
                        ) matches Ok(d) ==> d >= floor) by {
                            assert(within(top, v.items()[j]));
                        }
                        lemma_expanded_ordered(rest, v, o, true, floor);
                        lemma_stepped_ordered(next, o, floor);
                    },
                    Err(_) => {},
                }
            },
        }
    }
}

/// A walk from an ordered work list gives features in order of distance,
/// none nearer than the floor.
pub proof fn lemma_walk_ascending<D>(list: Seq<WorkView<D>>, o: Oracle, floor: Dist)
    requires
        ordered(list, o, floor),
    ensures
        ascending(walk(list, o)),
        forall|i: int| 0 <= i < walk(list, o).len() ==> (#[trigger] walk(list, o)[i]).1 >= floor,
    decreases load(list),
{
    let (next, rest) = stepped(list, o);
    match next {
        None => {},
        Some(x) => {
            lemma_stepped_load(list, o);
            lemma_stepped_ordered(list, o, floor);
            lemma_walk_ascending(rest, o, x.1);
            let tail = walk(rest, o);
            let all = walk(list, o);
            assert(all == seq![x] + tail);
            assert forall|i: int| 0 <= i < all.len() implies (#[trigger] all[i]).1 >= floor by {
                if i > 0 {
                    assert(all[i] == tail[i - 1]);
                }
            }
            assert forall|i: int, j: int| 0 <= i < j < all.len() implies all[i].1 <= all[j].1 by {
                assert(all[j] == tail[j - 1]);
                if i > 0 {
                    assert(all[i] == tail[i - 1]);
                }
            }
        },
    }
}

/// A walk of a tree gives features in order of distance, where every node
/// is measured no farther than the features in it.
pub proof fn lemma_sorted_is_ordered<D>(root: NodeView<D>, o: Oracle)
    requires
        admissible(root, o),
    ensures
        ascending(walk(walk_start(root, o), o)),
{
    let list = walk_start(root, o);
    if list.len() > 0 {
        let w = list[0];
        assert(above(w, o, 0));
    }
    assert(ordered(list, o, 0));
    lemma_walk_ascending(list, o, 0);
}

} // verus!
