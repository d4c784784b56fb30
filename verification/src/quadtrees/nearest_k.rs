//! Why the search for the k nearest features leaves out no nearer one.

use vstd::prelude::*;
use vstd::multiset::Multiset;
use vstd::seq_lib::{to_multiset_build, to_multiset_contains, to_multiset_len};
use crate::geom::calc::{Dist, UNBOUNDED};
use crate::geom::geometry::Geometry;
use crate::model::{Entry, NodeView};
use crate::quadtrees::coverage::{
    all_measured, content, features, lemma_with_entries_pending, lemma_with_node_pending, pending,
};
use crate::quadtrees::find::Oracle;
use crate::quadtrees::knn::{knn_found, knn_run};
use crate::quadtrees::nearest::admissible;
use crate::quadtrees::ordering::{
    above, lemma_expanded_ordered, lemma_rest_ordered, lemma_true_item_above, ordered, within,
};
use crate::quadtrees::worklist::{
    expanded, lemma_load_expanded, load, slotted, strict, with_entries, with_node, WorkKind,
    WorkView,
};
use crate::placing::lemma_bag;
use vstd::seq_lib::lemma_multiset_commutative;

verus! {

/// A feature that a work list stands for is one that an item of the list
/// stands for.
pub proof fn lemma_pending_within<D>(list: Seq<WorkView<D>>, e: Entry<D>)
    requires
        pending(list).count(e) > 0,
    ensures
        exists|i: int| 0 <= i < list.len() && within(#[trigger] list[i], e),
    decreases list.len(),
{
    if list.len() > 0 {
        let top = list.last();
        let rest = list.drop_last();
        if content(top).count(e) > 0 {
            match top.kind {
                WorkKind::Child(c) => {},
                WorkKind::Node(v) => {
                    to_multiset_contains(v.items(), e);
                },
            }
            assert(within(list[list.len() - 1], e));
        } else {
            lemma_pending_within(rest, e);
            let i = choose|i: int| 0 <= i < rest.len() && within(#[trigger] rest[i], e);
            assert(list[i] == rest[i]);
        }
    }
}

/// Features that were added without an error can all be measured.
pub proof fn lemma_strict_all_measured<D>(list: Seq<WorkView<D>>, es: Seq<Entry<D>>, o: Oracle)
    requires
        with_entries(list, es, o, false) is Ok,
    ensures
        all_measured(es, o),
    decreases es.len(),
{
    if es.len() > 0 {
        let d = strict(o, es[0].geom)->Ok_0;
        let rest = es.drop_first();
        lemma_strict_all_measured(
            slotted(list, WorkView { kind: WorkKind::Child(es[0]), dist: d }),
            rest,
            o,
        );
        assert forall|k: int| 0 <= k < es.len() implies strict(o, (#[trigger] es[k]).geom) is Ok by {
            if k > 0 {
                assert(rest[k - 1] == es[k]);
            }
        }
    }
}

/// A node that was opened without an error puts all its features into what
/// the list stands for.
pub proof fn lemma_opened_pending<D>(list: Seq<WorkView<D>>, v: NodeView<D>, o: Oracle)
    requires
        expanded(list, v, o, false) is Ok,
    ensures
        pending(expanded(list, v, o, false)->Ok_0) =~= pending(list).add(v.items().to_multiset()),
{
    lemma_bag(v);
    lemma_multiset_commutative(v.children, v.stuck);
    let a = with_entries(list, v.own(), o, false);
    if v.subs.len() == 4 {
        let b = with_node(a, v.subs[0], o, false);
        let c = with_node(b, v.subs[1], o, false);
        let d = with_node(c, v.subs[2], o, false);
        lemma_with_node_pending(d, v.subs[3], o, false);
        lemma_with_node_pending(c, v.subs[2], o, false);
        lemma_with_node_pending(b, v.subs[1], o, false);
        lemma_with_node_pending(a, v.subs[0], o, false);
    }
    lemma_strict_all_measured(list, v.own(), o);
    lemma_with_entries_pending(list, v.own(), o, false);
}

/// The features of results with one more.
pub proof fn lemma_features_push<D>(results: Seq<(Entry<D>, Dist)>, x: (Entry<D>, Dist))
    ensures
        features(results.push(x)).to_multiset() =~= features(results).to_multiset().insert(x.0),
{
    assert(features(results.push(x)) =~= features(results).push(x.0));
    to_multiset_build(features(results), x.0);
}

/// A search that goes on from an ordered work list leaves out no feature
/// that is nearer than its last result, where it gives `k` results, and no
/// feature within `r`, where it gives fewer.
pub proof fn lemma_knn_run_nearest<D>(
    list: Seq<WorkView<D>>,
    results: Seq<(Entry<D>, Dist)>,
    o: Oracle,
    k: nat,
    r: Dist,
    floor: Dist,
    e: Entry<D>,
)
    requires
        ordered(list, o, floor),
        results.len() < k,
        knn_run(list, results, o, k, r) is Ok,
        pending(list).add(features(results).to_multiset()).count(e) > features(
            knn_run(list, results, o, k, r)->Ok_0,
        ).to_multiset().count(e),
        o(e.geom) is Ok,
    ensures
        knn_run(list, results, o, k, r)->Ok_0.len() < k ==> o(e.geom)->Ok_0 > r,
        knn_run(list, results, o, k, r)->Ok_0.len() >= k ==> o(e.geom)->Ok_0 >= knn_run(
            list,
            results,
            o,
            k,
            r,
        )->Ok_0.last().1,
    decreases load(list),
{
    if list.len() > 0 {
        let top = list.last();
        let rest = list.drop_last();
        lemma_rest_ordered(list, o, floor);
        if top.dist > r {
            lemma_pending_within(list, e);
            let i = choose|i: int| 0 <= i < list.len() && within(#[trigger] list[i], e);
            lemma_true_item_above(list[i], o);
            assert(list[i].dist >= list[list.len() - 1].dist);
        } else {
            match top.kind {
                WorkKind::Child(c) => {
                    let more = results.push((c, top.dist));
                    lemma_features_push(results, (c, top.dist));
                    if more.len() >= k {
                        assert(pending(rest).count(e) > 0);
                        lemma_pending_within(rest, e);
                        let i = choose|i: int| 0 <= i < rest.len() && within(#[trigger] rest[i], e);
                        assert(above(rest[i], o, top.dist));
                    } else {
                        lemma_knn_run_nearest(rest, more, o, k, r, top.dist, e);
                    }
                },
                WorkKind::Node(v) => {
                    lemma_load_expanded(rest, v, o, false);
                    assert forall|j: int| 0 <= j < v.items().len() implies (o(
                        (#[trigger] v.items()[j]).geom,
                    ) matches Ok(d) ==> d >= floor) by {
                        assert(within(top, v.items()[j]));
                    }
                    lemma_expanded_ordered(rest, v, o, false, floor);
                    lemma_opened_pending(rest, v, o);
                    lemma_knn_run_nearest(
                        expanded(rest, v, o, false)->Ok_0,
                        results,
                        o,
                        k,
                        r,
                        floor,
                        e,
                    );
                },
            }
        }
    }
}

/// What a search for the `k` nearest features within `r` gives are the
/// nearest: where every node is measured no farther than the features in
/// it, a feature that the tree holds more often than the search gave it is
/// no nearer than the last result, where there are `k` results, and lies
/// beyond `r`, where there are fewer.
pub proof fn lemma_knn_is_nearest<D>(root: NodeView<D>, o: Oracle, k: nat, r: Dist, e: Entry<D>)
    requires
        admissible(root, o),
        k > 0,
        knn_found(root, o, k, r) is Ok,
        root.items().to_multiset().count(e) > features(
            knn_found(root, o, k, r)->Ok_0,
        ).to_multiset().count(e),
        o(e.geom) is Ok,
    ensures
        knn_found(root, o, k, r)->Ok_0.len() < k ==> o(e.geom)->Ok_0 > r,
        knn_found(root, o, k, r)->Ok_0.len() == k ==> o(e.geom)->Ok_0 >= knn_found(
            root,
            o,
            k,
            r,
        )->Ok_0.last().1,
{
    let d0 = o(Geometry::Rect(root.bounds))->Ok_0;
    let w = WorkView { kind: WorkKind::Node(root), dist: d0 };
    let list = seq![w];
    let none = Seq::<(Entry<D>, Dist)>::empty();
    assert(above(w, o, 0));
    assert(ordered(list, o, 0));
    let nothing = Seq::<WorkView<D>>::empty();
    assert(list.drop_last() =~= nothing);
    assert(pending(nothing) =~= Multiset::empty());
    assert(pending(list) == pending(list.drop_last()).add(content(list.last())));
    assert(features(none) =~= Seq::empty());
    Seq::<Entry<D>>::empty().to_multiset_ensures();
    assert(pending(list).add(features(none).to_multiset()) =~= root.items().to_multiset());
    lemma_knn_run_nearest(list, none, o, k, r, 0, e);
    crate::quadtrees::ordering::lemma_knn_is_ordered(root, o, k, r);
}

/// A bag within another is no greater than it.
pub proof fn lemma_subset_len<A>(a: Multiset<A>, b: Multiset<A>)
    requires
        a.subset_of(b),
    ensures
        a.len() <= b.len(),
{
    assert(a.add(b.sub(a)) =~= b);
}

/// A search that goes on from a work list gives no feature more often than
/// the list and the results so far hold it; and where there is no bound on
/// the distance, it gives `k` results or all there are.
pub proof fn lemma_knn_run_bag<D>(
    list: Seq<WorkView<D>>,
    results: Seq<(Entry<D>, Dist)>,
    o: Oracle,
    k: nat,
    r: Dist,
)
    requires
        results.len() < k,
        knn_run(list, results, o, k, r) is Ok,
    ensures
        features(knn_run(list, results, o, k, r)->Ok_0).to_multiset().subset_of(
            pending(list).add(features(results).to_multiset()),
        ),
        knn_run(list, results, o, k, r)->Ok_0.len() <= k,
        knn_run(list, results, o, k, r)->Ok_0.len() < k && r == UNBOUNDED ==> features(
            knn_run(list, results, o, k, r)->Ok_0,
        ).to_multiset() =~= pending(list).add(features(results).to_multiset()),
    decreases load(list),
{
    if list.len() > 0 {
        let top = list.last();
        let rest = list.drop_last();
        if top.dist <= r {
            match top.kind {
                WorkKind::Child(c) => {
                    let more = results.push((c, top.dist));
                    lemma_features_push(results, (c, top.dist));
                    if more.len() < k {
                        lemma_knn_run_bag(rest, more, o, k, r);
                    }
                },
                WorkKind::Node(v) => {
                    lemma_load_expanded(rest, v, o, false);
                    lemma_opened_pending(rest, v, o);
                    lemma_knn_run_bag(expanded(rest, v, o, false)->Ok_0, results, o, k, r);
                },
            }
        }
    }
}

/// The least of two numbers.
pub open spec fn least(a: nat, b: nat) -> nat {
    if a <= b {
        a
    } else {
        b
    }
}

/// What a search for the `k` nearest features gives, it gives no more
/// often than the tree holds it; and where there is no bound on the
/// distance, it gives `k` features, or all of them where the tree holds
/// fewer.
pub proof fn lemma_knn_gives_each_once<D>(root: NodeView<D>, o: Oracle, k: nat, r: Dist)
    requires
        knn_found(root, o, k, r) is Ok,
    ensures
        features(knn_found(root, o, k, r)->Ok_0).to_multiset().subset_of(
            root.items().to_multiset(),
        ),
        knn_found(root, o, k, r)->Ok_0.len() <= least(k, root.items().len()),
        r == UNBOUNDED ==> knn_found(root, o, k, r)->Ok_0.len() == least(k, root.items().len()),
{
    let out = knn_found(root, o, k, r)->Ok_0;
    let none = Seq::<(Entry<D>, Dist)>::empty();
    assert(features(none) =~= Seq::empty());
    Seq::<Entry<D>>::empty().to_multiset_ensures();
    to_multiset_len(features(out));
    to_multiset_len(root.items());
    if k > 0 {
        let d0 = o(Geometry::Rect(root.bounds))->Ok_0;
        let w = WorkView { kind: WorkKind::Node(root), dist: d0 };
        let list = seq![w];
        let nothing = Seq::<WorkView<D>>::empty();
        assert(list.drop_last() =~= nothing);
        assert(pending(nothing) =~= Multiset::empty());
        assert(pending(list) == pending(list.drop_last()).add(content(list.last())));
        assert(pending(list).add(features(none).to_multiset()) =~= root.items().to_multiset());
        lemma_knn_run_bag(list, none, o, k, r);
    } else {
        assert(features(out) =~= Seq::empty());
        assert(features(out).to_multiset() =~= Multiset::empty());
    }
    lemma_subset_len(features(out).to_multiset(), root.items().to_multiset());
    assert(features(out).len() == out.len());
}

} // verus!
