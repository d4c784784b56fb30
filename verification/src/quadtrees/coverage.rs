//! Why a walk in order of distance gives every feature once.

use vstd::prelude::*;
use vstd::multiset::Multiset;
use vstd::seq_lib::{lemma_multiset_commutative, to_multiset_build};
use crate::error::Error;
use crate::geom::calc::Dist;
use crate::geom::geometry::Geometry;
use crate::model::{Entry, NodeView};
use crate::placing::lemma_bag;
use crate::quadtrees::find::Oracle;
use crate::quadtrees::sorted::{lemma_stepped_load, stepped, walk, walk_start};
use crate::quadtrees::worklist::{
    expanded, lemma_load_expanded, lemma_slot_range, load, slot, slotted, strict, with_entries,
    with_node, WorkKind, WorkView,
};

verus! {

/// The features that an item stands for, as a bag.
pub open spec fn content<D>(w: WorkView<D>) -> Multiset<Entry<D>> {
    match w.kind {
        WorkKind::Child(e) => Multiset::singleton(e),
        WorkKind::Node(v) => v.items().to_multiset(),
    }
}

/// The features that a work list stands for, as a bag.
pub open spec fn pending<D>(list: Seq<WorkView<D>>) -> Multiset<Entry<D>>
    decreases list.len(),
{
    if list.len() == 0 {
        Multiset::empty()
    } else {
        pending(list.drop_last()).add(content(list.last()))
    }
}

/// The features of a sequence of results.
pub open spec fn features<D>(found: Seq<(Entry<D>, Dist)>) -> Seq<Entry<D>> {
    Seq::new(found.len(), |i: int| found[i].0)
}

/// Every feature of the sequence can be measured.
pub open spec fn all_measured<D>(es: Seq<Entry<D>>, o: Oracle) -> bool {
    forall|k: int| 0 <= k < es.len() ==> strict(o, (#[trigger] es[k]).geom) is Ok
}

/// The region of the node can be measured, or the node holds nothing.
pub open spec fn reachable<D>(v: NodeView<D>, o: Oracle) -> bool {
    strict(o, Geometry::Rect(v.bounds)) is Ok || v.items().len() == 0
}

/// Every feature in and below the node can be measured, and so can the
/// region of every node below it that holds a feature.
pub open spec fn measurable<D>(v: NodeView<D>, o: Oracle) -> bool
    decreases v,
{
    &&& all_measured(v.own(), o)
    &&& v.subs.len() == 4 ==> forall|i: int|
        0 <= i < 4 ==> reachable(#[trigger] v.subs[i], o) && measurable(v.subs[i], o)
}

/// Every node in the work list is measurable.
pub open spec fn list_measurable<D>(list: Seq<WorkView<D>>, o: Oracle) -> bool {
    forall|i: int|
        0 <= i < list.len() ==> ((#[trigger] list[i]).kind matches WorkKind::Node(v) ==> measurable(
            v,
            o,
        ))
}

/// Putting an item into a work list adds what it stands for.
pub proof fn lemma_pending_insert<D>(list: Seq<WorkView<D>>, j: int, w: WorkView<D>)
    requires
        0 <= j <= list.len(),
    ensures
        pending(list.insert(j, w)) =~= pending(list).add(content(w)),
    decreases list.len(),
{
    let after = list.insert(j, w);
    if j == list.len() {
        assert(after.drop_last() =~= list);
        assert(after.last() == w);
    } else {
        assert(after.drop_last() =~= list.drop_last().insert(j, w));
        assert(after.last() == list.last());
        lemma_pending_insert(list.drop_last(), j, w);
    }
}

/// Putting an item in its place keeps the other nodes of the list.
pub proof fn lemma_slotted_measurable<D>(list: Seq<WorkView<D>>, w: WorkView<D>, o: Oracle)
    requires
        list_measurable(list, o),
        w.kind matches WorkKind::Node(v) ==> measurable(v, o),
    ensures
        list_measurable(slotted(list, w), o),
        pending(slotted(list, w)) =~= pending(list).add(content(w)),
{
    lemma_slot_range(list, w.dist);
    let j = slot(list, w.dist);
    lemma_pending_insert(list, j, w);
    let after = slotted(list, w);
    assert forall|i: int| 0 <= i < after.len() implies ((#[trigger] after[i]).kind matches WorkKind::Node(
        v,
    ) ==> measurable(v, o)) by {
        if i < j {
            assert(after[i] == list[i]);
        } else if i > j {
            assert(after[i] == list[i - 1]);
        }
    }
}

/// Adding features adds no more than them to what the list stands for, and
/// all of them where each can be measured.
pub proof fn lemma_with_entries_pending<D>(
    list: Seq<WorkView<D>>,
    es: Seq<Entry<D>>,
    o: Oracle,
    lenient: bool,
)
    requires
        with_entries(list, es, o, lenient) is Ok,
    ensures
        pending(with_entries(list, es, o, lenient)->Ok_0).subset_of(
            pending(list).add(es.to_multiset()),
        ),
        pending(list).subset_of(pending(with_entries(list, es, o, lenient)->Ok_0)),
        all_measured(es, o) ==> pending(with_entries(list, es, o, lenient)->Ok_0) =~= pending(
            list,
        ).add(es.to_multiset()),
        list_measurable(list, o) ==> list_measurable(
            with_entries(list, es, o, lenient)->Ok_0,
            o,
        ),
    decreases es.len(),
{
    if es.len() == 0 {
        es.to_multiset_ensures();
        assert(es.to_multiset() =~= Multiset::empty());
    } else {
        let rest = es.drop_first();
        assert(es =~= seq![es[0]] + rest);
        lemma_multiset_commutative(seq![es[0]], rest);
        assert(seq![es[0]].to_multiset() =~= Multiset::singleton(es[0])) by {
            to_multiset_build(Seq::<Entry<D>>::empty(), es[0]);
            assert(Seq::<Entry<D>>::empty().push(es[0]) =~= seq![es[0]]);
            Seq::<Entry<D>>::empty().to_multiset_ensures();
        }
        if all_measured(es, o) {
            assert forall|k: int| 0 <= k < rest.len() implies strict(
                o,
                (#[trigger] rest[k]).geom,
            ) is Ok by {
                assert(rest[k] == es[k + 1]);
            }
        }
        match strict(o, es[0].geom) {
            Err(x) => {
                lemma_with_entries_pending(list, rest, o, lenient);
            },
            Ok(d) => {
                let w = WorkView { kind: WorkKind::Child(es[0]), dist: d };
                if list_measurable(list, o) {
                    lemma_slotted_measurable(list, w, o);
                }
                lemma_slot_range(list, d);
                lemma_pending_insert(list, slot(list, d), w);
                lemma_with_entries_pending(slotted(list, w), rest, o, lenient);
            },
        }
    }
}

/// Adding a node adds no more than its features to what the list stands
/// for, and all of them where its region can be measured.
pub proof fn lemma_with_node_pending<D>(
    r: Result<Seq<WorkView<D>>, Error>,
    v: NodeView<D>,
    o: Oracle,
    lenient: bool,
)
    requires
        with_node(r, v, o, lenient) is Ok,
    ensures
        r is Ok,
        pending(with_node(r, v, o, lenient)->Ok_0).subset_of(
            pending(r->Ok_0).add(v.items().to_multiset()),
        ),
        pending(r->Ok_0).subset_of(pending(with_node(r, v, o, lenient)->Ok_0)),
        reachable(v, o) ==> pending(with_node(r, v, o, lenient)->Ok_0) =~= pending(r->Ok_0).add(
            v.items().to_multiset(),
        ),
        list_measurable(r->Ok_0, o) && measurable(v, o) ==> list_measurable(
            with_node(r, v, o, lenient)->Ok_0,
            o,
        ),
{
    let list = r->Ok_0;
    match strict(o, Geometry::Rect(v.bounds)) {
        Err(x) => {
            if v.items().len() == 0 {
                v.items().to_multiset_ensures();
                assert(v.items().to_multiset() =~= Multiset::empty());
            }
        },
        Ok(d) => {
            let w = WorkView { kind: WorkKind::Node(v), dist: d };
            lemma_slot_range(list, d);
            lemma_pending_insert(list, slot(list, d), w);
            if list_measurable(list, o) && measurable(v, o) {
                lemma_slotted_measurable(list, w, o);
            }
        },
    }
}

/// Opening a node adds no more than its features to what the list stands
/// for, and all of them where the node is measurable.
pub proof fn lemma_expanded_pending<D>(
    list: Seq<WorkView<D>>,
    v: NodeView<D>,
    o: Oracle,
    lenient: bool,
)
    requires
        expanded(list, v, o, lenient) is Ok,
    ensures
        pending(expanded(list, v, o, lenient)->Ok_0).subset_of(
            pending(list).add(v.items().to_multiset()),
        ),
        measurable(v, o) ==> pending(expanded(list, v, o, lenient)->Ok_0) =~= pending(list).add(
            v.items().to_multiset(),
        ),
        list_measurable(list, o) && measurable(v, o) ==> list_measurable(
            expanded(list, v, o, lenient)->Ok_0,
            o,
        ),
{
    lemma_bag(v);
    lemma_multiset_commutative(v.children, v.stuck);
    let a = with_entries(list, v.own(), o, lenient);
    if v.subs.len() == 4 {
        let b = with_node(a, v.subs[0], o, lenient);
        let c = with_node(b, v.subs[1], o, lenient);
        let d = with_node(c, v.subs[2], o, lenient);
        lemma_with_node_pending(d, v.subs[3], o, lenient);
        lemma_with_node_pending(c, v.subs[2], o, lenient);
        lemma_with_node_pending(b, v.subs[1], o, lenient);
        lemma_with_node_pending(a, v.subs[0], o, lenient);
        lemma_with_entries_pending(list, v.own(), o, lenient);
        if measurable(v, o) {
            assert(reachable(v.subs[0], o) && measurable(v.subs[0], o));
            assert(reachable(v.subs[1], o) && measurable(v.subs[1], o));
            assert(reachable(v.subs[2], o) && measurable(v.subs[2], o));
            assert(reachable(v.subs[3], o) && measurable(v.subs[3], o));
        }
    } else {
        lemma_with_entries_pending(list, v.own(), o, lenient);
    }
}

/// A step of a walk takes the feature it gives out of what the list stands
/// for, and nothing else where the list is measurable.
pub proof fn lemma_stepped_pending<D>(list: Seq<WorkView<D>>, o: Oracle)
    ensures
        stepped(list, o).0 matches Some(x) ==> pending(stepped(list, o).1).insert(x.0).subset_of(
            pending(list),
        ),
        stepped(list, o).0 is None ==> pending(stepped(list, o).1).subset_of(pending(list)),
        list_measurable(list, o) ==> list_measurable(stepped(list, o).1, o) && match stepped(
            list,
            o,
        ).0 {
            Some(x) => pending(stepped(list, o).1).insert(x.0) =~= pending(list),
            None => pending(list) =~= Multiset::empty(),
        },
    decreases load(list),
{
    if list.len() > 0 {
        let top = list.last();
        let rest = list.drop_last();
        if list_measurable(list, o) {
            assert(list[list.len() - 1].kind matches WorkKind::Node(v) ==> measurable(v, o));
            assert forall|i: int| 0 <= i < rest.len() implies ((#[trigger] rest[i]).kind matches WorkKind::Node(
                v,
            ) ==> measurable(v, o)) by {
                assert(rest[i] == list[i]);
            }
        }
        match top.kind {
            WorkKind::Child(e) => {},
            WorkKind::Node(v) => {
                lemma_load_expanded(rest, v, o, true);
                match expanded(rest, v, o, true) {
                    Ok(next) => {
                        lemma_expanded_pending(rest, v, o, true);
                        lemma_stepped_pending(next, o);
                    },
                    Err(_) => {
                        lemma_lenient_never_fails(rest, v, o);
                    },
                }
            },
        }
    }
}

/// Passing over what cannot be measured, opening a node never fails.
pub proof fn lemma_lenient_never_fails<D>(list: Seq<WorkView<D>>, v: NodeView<D>, o: Oracle)
    ensures
        expanded(list, v, o, true) is Ok,
{
    lemma_lenient_entries(list, v.own(), o);
}

/// Passing over what cannot be measured, adding features never fails.
pub proof fn lemma_lenient_entries<D>(list: Seq<WorkView<D>>, es: Seq<Entry<D>>, o: Oracle)
    ensures
        with_entries(list, es, o, true) is Ok,
    decreases es.len(),
{
    if es.len() > 0 {
        match strict(o, es[0].geom) {
            Err(x) => {
                lemma_lenient_entries(list, es.drop_first(), o);
            },
            Ok(d) => {
                lemma_lenient_entries(
                    slotted(list, WorkView { kind: WorkKind::Child(es[0]), dist: d }),
                    es.drop_first(),
                    o,
                );
            },
        }
    }
}

/// A walk gives each feature that the work list stands for at most once,
/// and, where the list is measurable, exactly once.
pub proof fn lemma_walk_pending<D>(list: Seq<WorkView<D>>, o: Oracle)
    ensures
        features(walk(list, o)).to_multiset().subset_of(pending(list)),
        list_measurable(list, o) ==> features(walk(list, o)).to_multiset() =~= pending(list),
    decreases load(list),
{
    let (next, rest) = stepped(list, o);
    lemma_stepped_pending(list, o);
    match next {
        None => {
            assert(features(walk(list, o)) =~= Seq::empty());
            Seq::<Entry<D>>::empty().to_multiset_ensures();
            assert(features(walk(list, o)).to_multiset() =~= Multiset::empty());
        },
        Some(x) => {
            lemma_stepped_load(list, o);
            lemma_walk_pending(rest, o);
            let tail = features(walk(rest, o));
            assert(features(walk(list, o)) =~= seq![x.0] + tail);
            lemma_multiset_commutative(seq![x.0], tail);
            assert(seq![x.0].to_multiset() =~= Multiset::singleton(x.0)) by {
                to_multiset_build(Seq::<Entry<D>>::empty(), x.0);
                assert(Seq::<Entry<D>>::empty().push(x.0) =~= seq![x.0]);
                Seq::<Entry<D>>::empty().to_multiset_ensures();
            }
        },
    }
}

/// A walk of a tree gives no feature more often than the tree holds it.
/// Where the probe touches the root bounds, and every feature can be
/// measured and so can the region of every node that holds one, it gives
/// every feature exactly as often as the tree holds it.
pub proof fn lemma_sorted_gives_each_once<D>(root: NodeView<D>, o: Oracle)
    ensures
        features(walk(walk_start(root, o), o)).to_multiset().subset_of(root.items().to_multiset()),
        o(Geometry::Rect(root.bounds)) == Ok::<Dist, Error>(0) && measurable(root, o) ==> features(
            walk(walk_start(root, o), o),
        ).to_multiset() =~= root.items().to_multiset(),
{
    let list = walk_start(root, o);
    lemma_walk_pending(list, o);
    if list.len() > 0 {
        let none = Seq::<WorkView<D>>::empty();
        assert(list.drop_last() =~= none);
        assert(pending(none) =~= Multiset::empty());
        assert(content(list.last()) == root.items().to_multiset());
        assert(pending(list) == pending(list.drop_last()).add(content(list.last())));
        assert(pending(list) =~= root.items().to_multiset());
    }
}

} // verus!
