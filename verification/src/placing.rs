//! What inserting keeps and what it changes.

use vstd::prelude::*;
use vstd::multiset::Multiset;
use vstd::seq_lib::{lemma_multiset_commutative, to_multiset_build, to_multiset_contains};
use crate::geom::rect::Rect;
use crate::model::{fits, home, Entry, NodeView};
use crate::node::lemma_quadrants_tile;

verus! {

/// The features of a node as a bag: those it holds itself and those of
/// its four sub-nodes.
pub proof fn lemma_bag<D>(v: NodeView<D>)
    ensures
        v.items().to_multiset() =~= v.children.to_multiset().add(v.stuck.to_multiset()).add(
            v.below().to_multiset(),
        ),
        v.subs.len() == 4 ==> v.below().to_multiset() =~= v.subs[0].items().to_multiset().add(
            v.subs[1].items().to_multiset(),
        ).add(v.subs[2].items().to_multiset()).add(v.subs[3].items().to_multiset()),
        v.subs.len() != 4 ==> v.below() =~= Seq::<Entry<D>>::empty(),
{
    lemma_multiset_commutative(v.children, v.stuck);
    lemma_multiset_commutative(v.own(), v.below());
    if v.subs.len() == 4 {
        let a = v.subs[0].items();
        let b = v.subs[1].items();
        let c = v.subs[2].items();
        let d = v.subs[3].items();
        lemma_multiset_commutative(a, b);
        lemma_multiset_commutative(a + b, c);
        lemma_multiset_commutative(a + b + c, d);
    }
}

/// An empty node is well formed and holds nothing.
pub proof fn lemma_leaf<D>(bounds: Rect, depth: u8, max_depth: u8, max_children: usize)
    requires
        bounds.wf(),
        depth <= max_depth,
    ensures
        NodeView::<D>::leaf(bounds, depth, max_depth, max_children).wf(),
        NodeView::<D>::leaf(bounds, depth, max_depth, max_children).items() =~= Seq::empty(),
{
}

/// A split node is well formed and holds what was stuck in it before.
pub proof fn lemma_split<D>(v: NodeView<D>)
    requires
        v.wf(),
        v.subs.len() == 0,
        v.depth < v.max_depth,
    ensures
        v.split().wf(),
        v.split().subs.len() == 4,
        v.split().items() =~= Seq::empty(),
{
    let s = v.split();
    lemma_quadrants_tile(v.bounds);
    let d = (v.depth + 1) as u8;
    assert forall|i: int| 0 <= i < 4 implies (#[trigger] s.subs[i]).wf() && s.sub_matches(i) by {
        lemma_leaf::<D>(crate::node::quadrant(v.bounds, i), d, v.max_depth, v.max_children);
    }
    lemma_leaf::<D>(crate::node::quadrant(v.bounds, 0), d, v.max_depth, v.max_children);
    lemma_leaf::<D>(crate::node::quadrant(v.bounds, 1), d, v.max_depth, v.max_children);
    lemma_leaf::<D>(crate::node::quadrant(v.bounds, 2), d, v.max_depth, v.max_children);
    lemma_leaf::<D>(crate::node::quadrant(v.bounds, 3), d, v.max_depth, v.max_children);
}

/// What every way of adding features leaves alone.
pub open spec fn same_frame<D>(a: NodeView<D>, b: NodeView<D>) -> bool {
    &&& a.bounds == b.bounds
    &&& a.depth == b.depth
    &&& a.max_depth == b.max_depth
    &&& a.max_children == b.max_children
}

/// Placing a feature in a subdivided node keeps the node well formed and
/// adds the feature, and nothing else, to what it holds.
pub proof fn lemma_placed<D>(v: NodeView<D>, e: Entry<D>, fuel: nat)
    requires
        v.wf(),
        v.subs.len() == 4,
        v.admits(e),
        fuel == v.max_depth - v.depth,
    ensures
        v.placed(e, fuel).wf(),
        v.placed(e, fuel).subs.len() == 4,
        same_frame(v, v.placed(e, fuel)),
        v.placed(e, fuel).items().to_multiset() =~= v.items().to_multiset().insert(e),
    decreases fuel, 0nat,
{
    let r = v.placed(e, fuel);
    let i = home(v.bounds, e.bbox);
    lemma_bag(v);
    lemma_bag(r);
    if !fits(v.bounds, e.bbox) {
        to_multiset_build(v.stuck, e);
        assert forall|k: int| 0 <= k < r.stuck.len() implies r.admits(#[trigger] r.stuck[k])
            && !fits(r.bounds, r.stuck[k].bbox) by {
            if k < v.stuck.len() {
                assert(r.stuck[k] == v.stuck[k]);
            }
        }
        assert forall|j: int| 0 <= j < 4 implies (#[trigger] r.subs[j]).wf() && r.sub_matches(
            j,
        ) by {
            assert(v.subs[j].wf() && v.sub_matches(j));
        }
        assert(r.subs == v.subs);
    } else {
        let s = v.subs[i];
        assert(s.wf() && v.sub_matches(i));
        lemma_inserted_with(s, e, (fuel - 1) as nat);
        let t = s.inserted_with(e, (fuel - 1) as nat);
        assert(r.subs == v.subs.update(i, t));
        assert forall|j: int| 0 <= j < 4 implies (#[trigger] r.subs[j]).wf() && r.sub_matches(
            j,
        ) by {
            assert(v.subs[j].wf() && v.sub_matches(j));
        }
        assert(r.below().to_multiset() =~= v.below().to_multiset().insert(e));
        assert forall|j: int, k: int|
            0 <= j < 4 && 0 <= k < r.subs[j].items().len() implies home(
            r.bounds,
            (#[trigger] r.subs[j].items()[k]).bbox,
        ) == j by {
            if j == i {
                let x = t.items()[k];
                assert(t.items().contains(x));
                to_multiset_contains(t.items(), x);
                to_multiset_contains(s.items(), x);
                if x != e {
                    let k0 = choose|k0: int| 0 <= k0 < s.items().len() && s.items()[k0] == x;
                    assert(home(v.bounds, (v.subs[i].items()[k0]).bbox) == i);
                }
            } else {
                assert(r.subs[j] == v.subs[j]);
                assert(home(v.bounds, (v.subs[j].items()[k]).bbox) == j);
            }
        }
    }
}

/// Placing features one after another adds all of them.
pub proof fn lemma_placed_all<D>(v: NodeView<D>, es: Seq<Entry<D>>, fuel: nat)
    requires
        v.wf(),
        v.subs.len() == 4,
        forall|k: int| 0 <= k < es.len() ==> v.admits(#[trigger] es[k]),
        fuel == v.max_depth - v.depth,
    ensures
        v.placed_all(es, fuel).wf(),
        v.placed_all(es, fuel).subs.len() == 4,
        same_frame(v, v.placed_all(es, fuel)),
        v.placed_all(es, fuel).items().to_multiset() =~= v.items().to_multiset().add(
            es.to_multiset(),
        ),
    decreases fuel, 1 + es.len(),
{
    if es.len() == 0 {
        assert(es.to_multiset() =~= Multiset::empty()) by {
            es.to_multiset_ensures();
        }
    } else {
        let w = v.placed(es[0], fuel);
        lemma_placed(v, es[0], fuel);
        let rest = es.drop_first();
        assert forall|k: int| 0 <= k < rest.len() implies w.admits(#[trigger] rest[k]) by {
            assert(rest[k] == es[k + 1]);
        }
        lemma_placed_all(w, rest, fuel);
        assert(es =~= seq![es[0]] + rest);
        lemma_multiset_commutative(seq![es[0]], rest);
        assert(seq![es[0]].to_multiset() =~= Multiset::empty().insert(es[0])) by {
            to_multiset_build(Seq::<Entry<D>>::empty(), es[0]);
            assert(Seq::<Entry<D>>::empty().push(es[0]) =~= seq![es[0]]);
            Seq::<Entry<D>>::empty().to_multiset_ensures();
        }
    }
}

/// Inserting a feature keeps the node well formed and adds the feature,
/// and nothing else, to what it holds.
pub proof fn lemma_inserted_with<D>(v: NodeView<D>, e: Entry<D>, fuel: nat)
    requires
        v.wf(),
        v.admits(e),
        fuel == v.max_depth - v.depth,
    ensures
        v.inserted_with(e, fuel).wf(),
        same_frame(v, v.inserted_with(e, fuel)),
        v.inserted_with(e, fuel).items().to_multiset() =~= v.items().to_multiset().insert(e),
    decreases fuel, v.children.len() + 3,
{
    let r = v.inserted_with(e, fuel);
    if v.subs.len() == 4 {
        lemma_placed(v, e, fuel);
    } else if v.children.len() >= v.max_children && v.depth < v.max_depth {
        let s = v.split();
        let es = v.children.push(e);
        lemma_split(v);
        assert forall|k: int| 0 <= k < es.len() implies s.admits(#[trigger] es[k]) by {
            if k < v.children.len() {
                assert(es[k] == v.children[k]);
                assert(v.admits(v.children[k]));
            }
        }
        lemma_placed_all(s, es, fuel);
        lemma_bag(v);
        to_multiset_build(v.children, e);
        assert(s.items().to_multiset() =~= Multiset::empty()) by {
            s.items().to_multiset_ensures();
        }
        assert(v.stuck.to_multiset() =~= Multiset::empty()) by {
            v.stuck.to_multiset_ensures();
        }
    } else {
        lemma_bag(v);
        lemma_bag(r);
        to_multiset_build(v.children, e);
        assert forall|k: int| 0 <= k < r.children.len() implies r.admits(
            #[trigger] r.children[k],
        ) by {
            if k < v.children.len() {
                assert(r.children[k] == v.children[k]);
            }
        }
    }
}

} // verus!
