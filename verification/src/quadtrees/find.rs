//! The nearest feature: a walk of the tree that keeps the best feature
//! seen and leaves out every node that lies no nearer than it.

use vstd::prelude::*;
use crate::error::Error;
use crate::geom::calc::{Dist, DistEuclidean, DistHaversine, GeomCalc};
use crate::geom::geometry::Geometry;
use crate::model::{Entry, NodeView};
use crate::quadtrees::worklist::weight;
use crate::quadtrees::TreeView;
use crate::tree_node::Node;

verus! {

/// What measuring answers for each shape.
pub type Oracle = spec_fn(Geometry) -> Result<Dist, Error>;

/// The best feature seen so far, if any, and the distance to beat.
pub struct Best<D> {
    pub item: Option<Entry<D>>,
    pub dist: Dist,
}

/// The best after one feature was measured: the feature, where it is no
/// farther than the best so far.
pub open spec fn measured<D>(e: Entry<D>, o: Oracle, best: Best<D>) -> Result<Best<D>, Error> {
    match o(e.geom) {
        Err(x) => Err(x),
        Ok(d) => Ok(
            if d <= best.dist {
                Best { item: Some(e), dist: d }
            } else {
                best
            },
        ),
    }
}

/// The best after one feature was looked at. With `prefilter`, a feature
/// whose bounding rectangle is farther than the best so far is not
/// measured.
pub open spec fn looked<D>(e: Entry<D>, o: Oracle, prefilter: bool, best: Best<D>) -> Result<
    Best<D>,
    Error,
> {
    if prefilter {
        match o(Geometry::Rect(e.bbox)) {
            Err(x) => Err(x),
            Ok(b) => if b > best.dist {
                Ok(best)
            } else {
                measured(e, o, best)
            },
        }
    } else {
        measured(e, o, best)
    }
}

/// The best after each feature of a sequence was looked at in turn, or the
/// first error met.
pub open spec fn scanned<D>(es: Seq<Entry<D>>, o: Oracle, prefilter: bool, best: Best<D>) -> Result<
    Best<D>,
    Error,
>
    decreases es.len(),
{
    if es.len() == 0 {
        Ok(best)
    } else {
        match looked(es[0], o, prefilter, best) {
            Err(x) => Err(x),
            Ok(b) => scanned(es.drop_first(), o, prefilter, b),
        }
    }
}

/// `visited` after a walk that may have failed.
pub open spec fn then_visited<D>(
    r: Result<Best<D>, Error>,
    v: NodeView<D>,
    o: Oracle,
    prefilter: bool,
) -> Result<Best<D>, Error>
    decreases v, 1nat,
{
    match r {
        Err(x) => Err(x),
        Ok(b) => visited(v, o, prefilter, b),
    }
}

/// The best after a node was walked: unchanged where the node's region is
/// no nearer than the best so far, and else what looking at the node's own
/// features and then walking its quarters in index order gives.
pub open spec fn visited<D>(v: NodeView<D>, o: Oracle, prefilter: bool, best: Best<D>) -> Result<
    Best<D>,
    Error,
>
    decreases v, 0nat,
{
    match o(Geometry::Rect(v.bounds)) {
        Err(x) => Err(x),
        Ok(b) => if b >= best.dist {
            Ok(best)
        } else if v.subs.len() == 4 {
            then_visited(
                then_visited(
                    then_visited(
                        then_visited(scanned(v.own(), o, prefilter, best), v.subs[0], o, prefilter),
                        v.subs[1],
                        o,
                        prefilter,
                    ),
                    v.subs[2],
                    o,
                    prefilter,
                ),
                v.subs[3],
                o,
                prefilter,
            )
        } else {
            scanned(v.own(), o, prefilter, best)
        },
    }
}

/// The nearest feature within `r` of the probe and its distance.
///
/// `OutOfBounds` where the probe does not touch the root bounds,
/// `Empty` where the tree holds nothing, `NoneInRadius` where nothing lies
/// within `r`, and the first error that measuring gives on the way.
pub open spec fn found<D>(t: TreeView<D>, o: Oracle, prefilter: bool, r: Dist) -> Result<
    (Entry<D>, Dist),
    Error,
> {
    match o(Geometry::Rect(t.root.bounds)) {
        Err(x) => Err(x),
        Ok(d0) => if d0 != 0 {
            Err(Error::OutOfBounds)
        } else if t.size == 0 {
            Err(Error::Empty)
        } else {
            match visited(t.root, o, prefilter, Best { item: None, dist: r }) {
                Err(x) => Err(x),
                Ok(b) => match b.item {
                    None => Err(Error::NoneInRadius),
                    Some(e) => Ok((e, b.dist)),
                },
            }
        },
    }
}

/// The best feature seen so far, by reference.
pub struct BestRef<'a, D> {
    pub item: Option<&'a Entry<D>>,
    pub dist: Dist,
}

impl<'a, D> View for BestRef<'a, D> {
    type V = Best<D>;

    open spec fn view(&self) -> Best<D> {
        Best {
            item: match self.item {
                Some(e) => Some(*e),
                None => None,
            },
            dist: self.dist,
        }
    }
}

/// The view of a walk that may have failed.
pub open spec fn outcome<'a, D>(r: Result<BestRef<'a, D>, Error>) -> Result<Best<D>, Error> {
    match r {
        Ok(b) => Ok(b@),
        Err(x) => Err(x),
    }
}

/// What a walk may do to the best: leave it, or replace it by a nearer
/// feature out of `pool` with a distance that measuring gave for it.
pub open spec fn improves<'a, X: DistEuclidean + DistHaversine, D>(
    calc: &GeomCalc<'a, X>,
    pool: Seq<Entry<D>>,
    before: Best<D>,
    after: Best<D>,
) -> bool {
    ||| after == before
    ||| {
        &&& after.dist <= before.dist
        &&& after.item matches Some(e)
        &&& pool.contains(e)
        &&& calc.measures(e.geom.spec_as_geom(), Ok(after.dist))
    }
}

/// Looks at the features of a list in turn.
fn scan<'a, 'b, X: DistEuclidean + DistHaversine, D>(
    es: &'a Vec<Entry<D>>,
    calc: &GeomCalc<'b, X>,
    prefilter: bool,
    first: BestRef<'a, D>,
) -> (res: Result<BestRef<'a, D>, Error>)
    ensures
        res matches Ok(b) ==> improves(calc, es@, first@, b@),
        forall|o: Oracle| #[trigger]
            calc.agrees(o) ==> outcome(res) == scanned(es@, o, prefilter, first@),
{
    let mut best = first;
    let ghost start = first@;
    let mut k: usize = 0;
    assert(es@.subrange(0, es@.len() as int) =~= es@);
    while k < es.len()
        invariant
            k <= es@.len(),
            start == first@,
            improves(calc, es@, start, best@),
            forall|o: Oracle| #[trigger]
                calc.agrees(o) ==> scanned(es@, o, prefilter, start) == scanned(
                    es@.subrange(k as int, es@.len() as int),
                    o,
                    prefilter,
                    best@,
                ),
        decreases es@.len() - k,
    {
        let e = &es[k];
        let ghost rest = es@.subrange(k as int, es@.len() as int);
        let ghost prev = best@;
        proof {
            assert(rest[0] == es@[k as int]);
            assert(rest.drop_first() =~= es@.subrange(k + 1, es@.len() as int));
            assert(es@.contains(*e));
        }
        let mut skip = false;
        if prefilter {
            let b = calc.dist_bbox(&e.bbox);
            match b {
                Err(x) => {
                    proof {
                        assert forall|o: Oracle| #[trigger] calc.agrees(o) implies scanned(
                            es@,
                            o,
                            prefilter,
                            start,
                        ) == Err::<Best<D>, Error>(x) by {
                            calc.lemma_agrees(o, Geometry::Rect(e.bbox), b);
                            assert(looked(*e, o, prefilter, prev) == Err::<Best<D>, Error>(x));
                        }
                    }
                    return Err(x);
                },
                Ok(reach) => {
                    if reach > best.dist {
                        skip = true;
                    }
                },
            }
            proof {
                assert forall|o: Oracle| #[trigger] calc.agrees(o) implies o(
                    Geometry::Rect(e.bbox),
                ) == b by {
                    calc.lemma_agrees(o, Geometry::Rect(e.bbox), b);
                }
            }
        }
        if !skip {
            let d = calc.dist_geom(&e.geom.as_geom());
            match d {
                Err(x) => {
                    proof {
                        assert forall|o: Oracle| #[trigger] calc.agrees(o) implies scanned(
                            es@,
                            o,
                            prefilter,
                            start,
                        ) == Err::<Best<D>, Error>(x) by {
                            calc.lemma_agrees(o, e.geom, d);
                            assert(looked(*e, o, prefilter, prev) == Err::<Best<D>, Error>(x));
                        }
                    }
                    return Err(x);
                },
                Ok(near) => {
                    if near <= best.dist {
                        best = BestRef { item: Some(e), dist: near };
                    }
                },
            }
            proof {
                assert forall|o: Oracle| #[trigger] calc.agrees(o) implies o(e.geom) == d by {
                    calc.lemma_agrees(o, e.geom, d);
                }
            }
        }
        proof {
            assert forall|o: Oracle| #[trigger] calc.agrees(o) implies scanned(
                es@,
                o,
                prefilter,
                start,
            ) == scanned(es@.subrange(k + 1, es@.len() as int), o, prefilter, best@) by {
                assert(looked(*e, o, prefilter, prev) == Ok::<Best<D>, Error>(best@));
            }
        }
        k += 1;
    }
    proof {
        assert(es@.subrange(k as int, es@.len() as int) =~= Seq::empty());
    }
    Ok(best)
}

/// Looking at a sequence is looking at its front and then at its back.
pub proof fn lemma_scanned_concat<D>(
    a: Seq<Entry<D>>,
    b: Seq<Entry<D>>,
    o: Oracle,
    prefilter: bool,
    best: Best<D>,
)
    ensures
        scanned(a + b, o, prefilter, best) == match scanned(a, o, prefilter, best) {
            Err(x) => Err(x),
            Ok(b1) => scanned(b, o, prefilter, b1),
        },
    decreases a.len(),
{
    if a.len() == 0 {
        assert(a + b =~= b);
    } else {
        assert((a + b)[0] == a[0]);
        assert((a + b).drop_first() =~= a.drop_first() + b);
        match looked(a[0], o, prefilter, best) {
            Err(x) => {},
            Ok(b1) => {
                lemma_scanned_concat(a.drop_first(), b, o, prefilter, b1);
            },
        }
    }
}

/// What a node holds itself, and what its quarters hold, it holds.
pub proof fn lemma_items_contain<D>(v: NodeView<D>)
    ensures
        forall|e: Entry<D>| #[trigger] v.children.contains(e) ==> v.items().contains(e),
        forall|e: Entry<D>| #[trigger] v.stuck.contains(e) ==> v.items().contains(e),
        forall|e: Entry<D>, i: int|
            v.subs.len() == 4 && 0 <= i < 4 && #[trigger] v.subs[i].items().contains(e)
                ==> v.items().contains(e),
{
    let all = v.items();
    assert forall|e: Entry<D>| #[trigger] v.children.contains(e) implies all.contains(e) by {
        let k = choose|k: int| 0 <= k < v.children.len() && v.children[k] == e;
        assert(all[k] == e);
    }
    assert forall|e: Entry<D>| #[trigger] v.stuck.contains(e) implies all.contains(e) by {
        let k = choose|k: int| 0 <= k < v.stuck.len() && v.stuck[k] == e;
        assert(all[v.children.len() + k] == e);
    }
    assert forall|e: Entry<D>, i: int|
        v.subs.len() == 4 && 0 <= i < 4 && #[trigger] v.subs[i].items().contains(
            e,
        ) implies all.contains(e) by {
        let s = v.subs[i].items();
        let k = choose|k: int| 0 <= k < s.len() && s[k] == e;
        let n0 = v.own().len();
        let n1 = n0 + v.subs[0].items().len();
        let n2 = n1 + v.subs[1].items().len();
        let n3 = n2 + v.subs[2].items().len();
        if i == 0 {
            assert(all[n0 + k] == e);
        } else if i == 1 {
            assert(all[n1 + k] == e);
        } else if i == 2 {
            assert(all[n2 + k] == e);
        } else {
            assert(all[n3 + k] == e);
        }
    }
}

/// Two improvements in a row, each out of a part of `pool`, are one out of
/// `pool`.
pub proof fn lemma_improves_chain<'a, X: DistEuclidean + DistHaversine, D>(
    calc: &GeomCalc<'a, X>,
    pool: Seq<Entry<D>>,
    part1: Seq<Entry<D>>,
    part2: Seq<Entry<D>>,
    b0: Best<D>,
    b1: Best<D>,
    b2: Best<D>,
)
    requires
        improves(calc, part1, b0, b1),
        improves(calc, part2, b1, b2),
        forall|e: Entry<D>| #[trigger] part1.contains(e) ==> pool.contains(e),
        forall|e: Entry<D>| #[trigger] part2.contains(e) ==> pool.contains(e),
    ensures
        improves(calc, pool, b0, b2),
{
}

/// The best after the nodes of a stack were walked, the last one first,
/// or the first error met.
pub open spec fn drained<D>(
    stack: Seq<NodeView<D>>,
    o: Oracle,
    prefilter: bool,
    r: Result<Best<D>, Error>,
) -> Result<Best<D>, Error>
    decreases stack.len(),
{
    if stack.len() == 0 {
        r
    } else {
        drained(stack.drop_last(), o, prefilter, then_visited(r, stack.last(), o, prefilter))
    }
}

/// After an error nothing is walked.
pub proof fn lemma_drained_error<D>(stack: Seq<NodeView<D>>, o: Oracle, prefilter: bool, x: Error)
    ensures
        drained(stack, o, prefilter, Err(x)) == Err::<Best<D>, Error>(x),
    decreases stack.len(),
{
    if stack.len() > 0 {
        lemma_drained_error(stack.drop_last(), o, prefilter, x);
    }
}

/// Walking a stack with the quarters of a node on top, the first quarter
/// last, is walking the quarters in index order and then the stack.
pub proof fn lemma_drained_quarters<D>(
    rest: Seq<NodeView<D>>,
    v: NodeView<D>,
    o: Oracle,
    prefilter: bool,
    r: Result<Best<D>, Error>,
)
    requires
        v.subs.len() == 4,
    ensures
        drained(
            rest.push(v.subs[3]).push(v.subs[2]).push(v.subs[1]).push(v.subs[0]),
            o,
            prefilter,
            r,
        ) == drained(
            rest,
            o,
            prefilter,
            then_visited(
                then_visited(
                    then_visited(then_visited(r, v.subs[0], o, prefilter), v.subs[1], o, prefilter),
                    v.subs[2],
                    o,
                    prefilter,
                ),
                v.subs[3],
                o,
                prefilter,
            ),
        ),
{
    let s3 = rest.push(v.subs[3]);
    let s2 = s3.push(v.subs[2]);
    let s1 = s2.push(v.subs[1]);
    let s0 = s1.push(v.subs[0]);
    assert(s0.drop_last() =~= s1 && s0.last() == v.subs[0]);
    assert(s1.drop_last() =~= s2 && s1.last() == v.subs[1]);
    assert(s2.drop_last() =~= s3 && s2.last() == v.subs[2]);
    assert(s3.drop_last() =~= rest && s3.last() == v.subs[3]);
    let r0 = then_visited(r, v.subs[0], o, prefilter);
    let r1 = then_visited(r0, v.subs[1], o, prefilter);
    let r2 = then_visited(r1, v.subs[2], o, prefilter);
    let r3 = then_visited(r2, v.subs[3], o, prefilter);
    assert(drained(s0, o, prefilter, r) == drained(s1, o, prefilter, r0));
    assert(drained(s1, o, prefilter, r0) == drained(s2, o, prefilter, r1));
    assert(drained(s2, o, prefilter, r1) == drained(s3, o, prefilter, r2));
    assert(drained(s3, o, prefilter, r2) == drained(rest, o, prefilter, r3));
}

/// An error among a node's own features is the error of the walk of the
/// node.
pub proof fn lemma_visited_error<D>(
    v: NodeView<D>,
    o: Oracle,
    prefilter: bool,
    best: Best<D>,
    x: Error,
)
    requires
        o(Geometry::Rect(v.bounds)) matches Ok(b) && b < best.dist,
        scanned(v.own(), o, prefilter, best) == Err::<Best<D>, Error>(x),
    ensures
        visited(v, o, prefilter, best) == Err::<Best<D>, Error>(x),
{
    if v.subs.len() == 4 {
        let r = scanned(v.own(), o, prefilter, best);
        let r0 = then_visited(r, v.subs[0], o, prefilter);
        let r1 = then_visited(r0, v.subs[1], o, prefilter);
        let r2 = then_visited(r1, v.subs[2], o, prefilter);
        let r3 = then_visited(r2, v.subs[3], o, prefilter);
        assert(r0 == Err::<Best<D>, Error>(x));
        assert(r1 == Err::<Best<D>, Error>(x));
        assert(r2 == Err::<Best<D>, Error>(x));
        assert(r3 == Err::<Best<D>, Error>(x));
    }
}

/// The number of nodes and features that a stack of nodes stands for.
pub open spec fn heap<D>(stack: Seq<NodeView<D>>) -> nat
    decreases stack.len(),
{
    if stack.len() == 0 {
        0
    } else {
        heap(stack.drop_last()) + weight(stack.last())
    }
}

/// A stack with one more node stands for that much more.
pub proof fn lemma_heap_push<D>(stack: Seq<NodeView<D>>, v: NodeView<D>)
    ensures
        heap(stack.push(v)) == heap(stack) + weight(v),
{
    assert(stack.push(v).drop_last() =~= stack);
}

/// The views of a stack of nodes.
pub open spec fn node_views<'a, D>(stack: Seq<&'a Node<D>>) -> Seq<NodeView<D>> {
    Seq::new(stack.len(), |i: int| stack[i]@)
}

/// Every feature in a node of the stack is a feature out of `pool`.
pub open spec fn stack_in_pool<D>(stack: Seq<NodeView<D>>, pool: Seq<Entry<D>>) -> bool {
    forall|i: int, e: Entry<D>|
        0 <= i < stack.len() && #[trigger] stack[i].items().contains(e) ==> pool.contains(e)
}

/// Walks the tree under a node from a stack: a node is taken off the stack
/// and left out if its region is no nearer than the best so far; else its
/// own features are looked at and its quarters are put on the stack, the
/// first one last.
pub fn visit<'a, 'b, X: DistEuclidean + DistHaversine, D>(
    root: &'a Node<D>,
    calc: &GeomCalc<'b, X>,
    prefilter: bool,
    first: BestRef<'a, D>,
) -> (res: Result<BestRef<'a, D>, Error>)
    ensures
        res matches Ok(b) ==> improves(calc, root@.items(), first@, b@),
        forall|o: Oracle| #[trigger]
            calc.agrees(o) ==> outcome(res) == visited(root@, o, prefilter, first@),
{
    let ghost pool = root@.items();
    let mut stack: Vec<&'a Node<D>> = Vec::new();
    stack.push(root);
    let mut best = first;
    proof {
        let views = node_views(stack@);
        assert(views =~= seq![root@]);
        assert(views.drop_last() =~= Seq::empty());
        assert forall|o: Oracle| #[trigger] calc.agrees(o) implies visited(
            root@,
            o,
            prefilter,
            first@,
        ) == drained(views, o, prefilter, Ok(best@)) by {
            assert(drained(views.drop_last(), o, prefilter, then_visited(Ok(best@), root@, o, prefilter))
                == then_visited(Ok(best@), root@, o, prefilter));
        }
    }
    while stack.len() > 0
        invariant
            pool == root@.items(),
            improves(calc, pool, first@, best@),
            stack_in_pool(node_views(stack@), pool),
            forall|o: Oracle| #[trigger]
                calc.agrees(o) ==> visited(root@, o, prefilter, first@) == drained(
                    node_views(stack@),
                    o,
                    prefilter,
                    Ok(best@),
                ),
        decreases heap(node_views(stack@)),
    {
        let ghost views = node_views(stack@);
        let ghost b0 = best@;
        let node = stack.pop().unwrap();
        let ghost rest = node_views(stack@);
        proof {
            assert(views.last() == node@);
            assert(rest =~= views.drop_last());
            lemma_items_contain(node@);
            assert forall|i: int, e: Entry<D>|
                0 <= i < rest.len() && #[trigger] rest[i].items().contains(e) implies pool.contains(
                e,
            ) by {
                assert(views[i] == rest[i]);
            }
            assert forall|e: Entry<D>| #[trigger] node@.items().contains(e) implies pool.contains(
                e,
            ) by {
                assert(views[views.len() - 1].items().contains(e));
            }
        }
        let reach = calc.dist_bbox(node.bounds());
        proof {
            assert forall|o: Oracle| #[trigger] calc.agrees(o) implies o(Geometry::Rect(node@.bounds))
                == reach by {
                calc.lemma_agrees(o, Geometry::Rect(node@.bounds), reach);
            }
        }
        let reach = match reach {
            Err(x) => {
                proof {
                    assert forall|o: Oracle| #[trigger] calc.agrees(o) implies visited(
                        root@,
                        o,
                        prefilter,
                        first@,
                    ) == Err::<Best<D>, Error>(x) by {
                        assert(then_visited(Ok(b0), node@, o, prefilter) == Err::<
                            Best<D>,
                            Error,
                        >(x));
                        lemma_drained_error(rest, o, prefilter, x);
                    }
                }
                return Err(x);
            },
            Ok(b) => b,
        };
        if reach < best.dist {
            proof {
                assert forall|o: Oracle| #[trigger] calc.agrees(o) implies scanned(
                    node@.own(),
                    o,
                    prefilter,
                    b0,
                ) == match scanned(node@.children, o, prefilter, b0) {
                    Err(x) => Err(x),
                    Ok(b1) => scanned(node@.stuck, o, prefilter, b1),
                } by {
                    lemma_scanned_concat(node@.children, node@.stuck, o, prefilter, b0);
                }
            }
            let after_children = scan(node.children(), calc, prefilter, best);
            let ghost r1 = outcome(after_children);
            best = match after_children {
                Err(x) => {
                    proof {
                        assert forall|o: Oracle| #[trigger] calc.agrees(o) implies visited(
                            root@,
                            o,
                            prefilter,
                            first@,
                        ) == Err::<Best<D>, Error>(x) by {
                            lemma_visited_error(node@, o, prefilter, b0, x);
                            assert(then_visited(Ok(b0), node@, o, prefilter) == Err::<
                                Best<D>,
                                Error,
                            >(x));
                            lemma_drained_error(rest, o, prefilter, x);
                        }
                    }
                    return Err(x);
                },
                Ok(b) => b,
            };
            let ghost b1 = best@;
            let after_stuck = scan(node.stuck_children(), calc, prefilter, best);
            best = match after_stuck {
                Err(x) => {
                    proof {
                        assert forall|o: Oracle| #[trigger] calc.agrees(o) implies visited(
                            root@,
                            o,
                            prefilter,
                            first@,
                        ) == Err::<Best<D>, Error>(x) by {
                            lemma_visited_error(node@, o, prefilter, b0, x);
                            assert(then_visited(Ok(b0), node@, o, prefilter) == Err::<
                                Best<D>,
                                Error,
                            >(x));
                            lemma_drained_error(rest, o, prefilter, x);
                        }
                    }
                    return Err(x);
                },
                Ok(b) => b,
            };
            let ghost b2 = best@;
            proof {
                lemma_improves_chain(calc, pool, node@.children, node@.stuck, b0, b1, b2);
                lemma_improves_chain(calc, pool, pool, pool, first@, b0, b2);
            }
            let pushed = match node.nodes() {
                Some(ns) => {
                    if ns.len() == 4 {
                        stack.push(&ns[3]);
                        stack.push(&ns[2]);
                        stack.push(&ns[1]);
                        stack.push(&ns[0]);
                        true
                    } else {
                        false
                    }
                },
                None => false,
            };
            proof {
                let now = node_views(stack@);
                if pushed {
                    let v = node@;
                    assert(now =~= rest.push(v.subs[3]).push(v.subs[2]).push(v.subs[1]).push(
                        v.subs[0],
                    ));
                    lemma_heap_push(rest, v.subs[3]);
                    lemma_heap_push(rest.push(v.subs[3]), v.subs[2]);
                    lemma_heap_push(rest.push(v.subs[3]).push(v.subs[2]), v.subs[1]);
                    lemma_heap_push(rest.push(v.subs[3]).push(v.subs[2]).push(v.subs[1]), v.subs[0]);
                    assert forall|i: int, e: Entry<D>|
                        0 <= i < now.len() && #[trigger] now[i].items().contains(
                            e,
                        ) implies pool.contains(e) by {
                        if i < rest.len() {
                            assert(now[i] == rest[i]);
                        } else {
                            assert(now[i] == v.subs[3 - (i - rest.len())]);
                            assert(node@.items().contains(e));
                        }
                    }
                    assert forall|o: Oracle| #[trigger] calc.agrees(o) implies visited(
                        root@,
                        o,
                        prefilter,
                        first@,
                    ) == drained(now, o, prefilter, Ok(b2)) by {
                        lemma_drained_quarters(rest, v, o, prefilter, Ok(b2));
                    }
                } else {
                    assert(now == rest);
                    assert(node@.subs.len() != 4);
                }
            }
        }
    }
    proof {
        assert(node_views(stack@) =~= Seq::empty());
    }
    Ok(best)
}

/// The nearest feature within `r` of the probe, and its distance.
pub fn find_in<'a, 'b, X: DistEuclidean + DistHaversine, D>(
    root: &'a Node<D>,
    size: usize,
    calc: &GeomCalc<'b, X>,
    prefilter: bool,
    r: Dist,
) -> (res: Result<(&'a Entry<D>, Dist), Error>)
    ensures
        res matches Ok((e, d)) ==> d <= r && root@.items().contains(*e) && calc.measures(
            e.geom.spec_as_geom(),
            Ok(d),
        ),
        calc.method == crate::geom::CalcMethod::NotSet ==> res == Err::<(&'a Entry<D>, Dist), Error>(
            Error::CalcMethodNotSet,
        ),
        forall|o: Oracle| #[trigger]
            calc.agrees(o) ==> hit(res) == found(
                TreeView { root: root@, size, calc_method: calc.method },
                o,
                prefilter,
                r,
            ),
{
    let d0 = calc.dist_bbox(root.bounds());
    proof {
        assert forall|o: Oracle| #[trigger] calc.agrees(o) implies o(Geometry::Rect(root@.bounds))
            == d0 by {
            calc.lemma_agrees(o, Geometry::Rect(root@.bounds), d0);
        }
    }
    let d0 = match d0 {
        Err(x) => {
            return Err(x);
        },
        Ok(d) => d,
    };
    if d0 != 0 {
        return Err(Error::OutOfBounds);
    }
    if size == 0 {
        return Err(Error::Empty);
    }
    let first = BestRef { item: None, dist: r };
    match visit(root, calc, prefilter, first) {
        Err(x) => Err(x),
        Ok(b) => match b.item {
            None => Err(Error::NoneInRadius),
            Some(e) => Ok((e, b.dist)),
        },
    }
}

/// The view of what a search found.
pub open spec fn hit<'a, D>(r: Result<(&'a Entry<D>, Dist), Error>) -> Result<
    (Entry<D>, Dist),
    Error,
> {
    match r {
        Ok((e, d)) => Ok((*e, d)),
        Err(x) => Err(x),
    }
}

/// What a search found, with the datum in place of the feature.
pub open spec fn datum_found<D>(f: Result<(Entry<D>, Dist), Error>) -> Result<(D, Dist), Error> {
    match f {
        Ok((e, d)) => Ok((e.datum, d)),
        Err(x) => Err(x),
    }
}

/// The view of what a search returned.
pub open spec fn seen<'a, D>(r: Result<(&'a D, Dist), Error>) -> Result<(D, Dist), Error> {
    match r {
        Ok((d, dist)) => Ok((*d, dist)),
        Err(x) => Err(x),
    }
}

} // verus!
