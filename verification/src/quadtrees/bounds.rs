//! The tree for features indexed by their bounding rectangle.

use vstd::prelude::*;
use vstd::seq_lib::to_multiset_len;
use crate::error::Error;
use crate::geom::geometry::{Geometry, Line, LineString, Polygon};
use crate::geom::math::rect_in_rect;
use crate::geom::point::Point;
use crate::geom::rect::Rect;
use crate::geom::calc::{Dist, DistEuclidean, DistHaversine, GeomCalc, UNBOUNDED};
use crate::geom::CalcMethod;
use crate::quadtrees::find::{datum_found, find_in, found, seen, Oracle};
use crate::quadtrees::knn::{all_seen, data_of_hits, datum_hits, hits, knn_found, knn};
use crate::quadtrees::sorted::{walk_start, SortIter};
use crate::model::Entry;
use crate::quadtrees::{data_of, datums, TreeView, DEFAULT_MAX_CHILDREN, DEFAULT_MAX_DEPTH};
use crate::tree_node::{targets, Node};

verus! {

/// What a datum must offer to be kept in a `BoundsQuadTree`: its shape.
pub trait Datum {
    /// The shape of the datum, to be kept with it.
    fn geometry(&self) -> Geometry;
}

impl Datum for Point {
    fn geometry(&self) -> (g: Geometry)
        ensures
            g == Geometry::Point(*self),
    {
        Geometry::Point(*self)
    }
}

impl Datum for Line {
    fn geometry(&self) -> (g: Geometry)
        ensures
            g == Geometry::Line(*self),
    {
        Geometry::Line(*self)
    }
}

impl Datum for Rect {
    fn geometry(&self) -> (g: Geometry)
        ensures
            g == Geometry::Rect(*self),
    {
        Geometry::Rect(*self)
    }
}

impl Datum for LineString {
    fn geometry(&self) -> (g: Geometry)
        ensures
            g matches Geometry::LineString(s) && s.alike(self),
    {
        Geometry::LineString(self.clone())
    }
}

impl Datum for Polygon {
    fn geometry(&self) -> (g: Geometry)
        ensures
            g matches Geometry::Polygon(p) && p.alike(self),
    {
        Geometry::Polygon(self.clone())
    }
}

impl Datum for Geometry {
    fn geometry(&self) -> (g: Geometry)
        ensures
            g.alike(self),
    {
        self.clone()
    }
}

/// The feature that stands for a datum with a shape, where the shape has a
/// bounding rectangle.
pub open spec fn shape_entry<D>(geom: Geometry, datum: D) -> Entry<D> {
    Entry { geom, bbox: geom.spec_bounding_rect()->0, datum }
}

/// What a tree over `bounds` retrieves for a shape: nothing where the shape
/// has no bounding rectangle or reaches out of the bounds.
pub open spec fn retrieved_for<D>(t: TreeView<D>, geom: Geometry) -> Seq<D> {
    match geom.spec_bounding_rect() {
        Some(b) => if t.root.bounds.has_rect(b) {
            datums(t.root.retrieved(b))
        } else {
            Seq::empty()
        },
        None => Seq::empty(),
    }
}

/// A quadtree of bounded shapes.
pub struct BoundsQuadTree<D> {
    root: Node<D>,
    size: usize,
    calc_method: CalcMethod,
}

impl<D> View for BoundsQuadTree<D> {
    type V = TreeView<D>;

    closed spec fn view(&self) -> TreeView<D> {
        TreeView { root: self.root@, size: self.size, calc_method: self.calc_method }
    }
}

impl<D> BoundsQuadTree<D> {
    /// The invariant of the tree.
    pub open spec fn wf(&self) -> bool {
        self@.wf()
    }

    /// An empty tree over `bounds`.
    pub fn new(bounds: Rect, calc_method: CalcMethod, max_depth: u8, max_children: usize) -> (t:
        Self)
        requires
            bounds.wf(),
        ensures
            t@ == TreeView::<D>::empty(bounds, calc_method, max_depth, max_children),
            t.wf(),
    {
        Self::private_new(bounds, calc_method, Some(max_depth), Some(max_children))
    }

    /// An empty tree over `bounds` with the default thresholds.
    pub fn from_bounds(bounds: Rect, calc_method: CalcMethod) -> (t: Self)
        requires
            bounds.wf(),
        ensures
            t@ == TreeView::<D>::empty(
                bounds,
                calc_method,
                DEFAULT_MAX_DEPTH,
                DEFAULT_MAX_CHILDREN,
            ),
            t.wf(),
    {
        Self::private_new(bounds, calc_method, None, None)
    }

    fn private_new(
        bounds: Rect,
        calc_method: CalcMethod,
        max_depth: Option<u8>,
        max_children: Option<usize>,
    ) -> (t: Self)
        requires
            bounds.wf(),
        ensures
            t@ == TreeView::<D>::empty(
                bounds,
                calc_method,
                match max_depth {
                    Some(d) => d,
                    None => DEFAULT_MAX_DEPTH,
                },
                match max_children {
                    Some(c) => c,
                    None => DEFAULT_MAX_CHILDREN,
                },
            ),
            t.wf(),
    {
        let max_depth = match max_depth {
            Some(d) => d,
            None => DEFAULT_MAX_DEPTH,
        };
        let max_children = match max_children {
            Some(c) => c,
            None => DEFAULT_MAX_CHILDREN,
        };
        proof {
            crate::placing::lemma_leaf::<D>(bounds, 0, max_depth, max_children);
        }
        BoundsQuadTree {
            root: Node::new(bounds, 0, max_depth, max_children),
            size: 0,
            calc_method,
        }
    }

    /// The number of features in the tree.
    pub fn size(&self) -> (n: usize)
        ensures
            n == self@.size,
    {
        self.size
    }

    /// The geometry in which the tree measures.
    pub fn calc_method(&self) -> (m: CalcMethod)
        ensures
            m == self@.calc_method,
    {
        self.calc_method
    }

    /// The root node.
    pub fn root(&self) -> (n: &Node<D>)
        ensures
            n@ == self@.root,
    {
        &self.root
    }

    /// Inserts a datum with its shape. A shape without a bounding
    /// rectangle, or one that the root bounds do not hold entirely, is
    /// refused and the tree is left as it was.
    pub fn insert_geom(&mut self, geom: Geometry, datum: D) -> (r: Result<(), Error>)
        requires
            old(self).wf(),
            old(self)@.size < usize::MAX,
        ensures
            final(self).wf(),
            r == insert_outcome(old(self)@, geom),
            r is Ok ==> final(self)@ == old(self)@.with_entry(shape_entry(geom, datum)),
            r is Err ==> final(self)@ == old(self)@,
            r is Ok ==> final(self)@.root.items().to_multiset() =~= old(
                self,
            )@.root.items().to_multiset().insert(shape_entry(geom, datum)),
            r is Ok ==> final(self)@.size == old(self)@.size + 1,
            r is Ok ==> final(self)@.size == final(self)@.root.items().len(),
    {
        let bbox = match geom.bounding_rect() {
            Some(b) => b,
            None => {
                return Err(Error::CannotMakeBbox);
            },
        };
        if rect_in_rect(self.root.bounds(), &bbox) {
            let e = Entry { geom, bbox, datum };
            proof {
                to_multiset_len(self.root@.items());
            }
            self.root.insert(e);
            proof {
                to_multiset_len(self.root@.items());
            }
            self.size += 1;
            Ok(())
        } else {
            Err(Error::OutOfBounds)
        }
    }

    /// Inserts a datum with the shape it reports.
    pub fn insert(&mut self, datum: D) -> (r: Result<(), Error>) where D: Datum
        requires
            old(self).wf(),
            old(self)@.size < usize::MAX,
        ensures
            final(self).wf(),
            exists|g: Geometry|
                {
                    &&& call_ensures(D::geometry, (&datum,), g)
                    &&& r == insert_outcome(old(self)@, g)
                    &&& r is Ok ==> final(self)@ == old(self)@.with_entry(shape_entry(g, datum))
                    &&& r is Ok ==> final(self)@.root.items().to_multiset() =~= old(
                        self,
                    )@.root.items().to_multiset().insert(shape_entry(g, datum))
                    &&& r is Err ==> final(self)@ == old(self)@
                },
            r is Ok ==> final(self)@.size == old(self)@.size + 1,
            r is Ok ==> final(self)@.size == final(self)@.root.items().len(),
    {
        let g = datum.geometry();
        self.insert_geom(g, datum)
    }

    /// The data that may collide with a shape.
    pub fn retrieve_geom(&self, geom: &Geometry) -> (found: Vec<&D>)
        requires
            self.wf(),
        ensures
            targets(found@) == retrieved_for(self@, *geom),
    {
        match geom.bounding_rect() {
            Some(bbox) => {
                if rect_in_rect(self.root.bounds(), &bbox) {
                    data_of(self.root.retrieve(&bbox))
                } else {
                    let found: Vec<&D> = Vec::new();
                    assert(targets(found@) =~= Seq::empty());
                    found
                }
            },
            None => {
                let found: Vec<&D> = Vec::new();
                assert(targets(found@) =~= Seq::empty());
                found
            },
        }
    }

    /// The data that may collide with the shape that a datum reports.
    /// Where the datum reports one shape only, they are the data of
    /// `retrieve_geom` for it.
    pub fn retrieve(&self, datum: &D) -> (found: Vec<&D>) where D: Datum
        requires
            self.wf(),
        ensures
            forall|s: Geometry|
                (forall|g: Geometry| call_ensures(D::geometry, (datum,), g) ==> g == s)
                    ==> #[trigger] retrieved_for(self@, s) == targets(found@),
            exists|g: Geometry|
                call_ensures(D::geometry, (datum,), g) && targets(found@) == retrieved_for(
                    self@,
                    g,
                ),
    {
        let g = datum.geometry();
        self.retrieve_geom(&g)
    }

    /// The probe and the formulas, bound to the geometry of the tree.
    pub open spec fn calc<'a, X>(&self, probe: &'a Geometry, math: &'a X) -> GeomCalc<'a, X> {
        GeomCalc { geom: probe.spec_as_geom(), method: self@.calc_method, math }
    }

    /// The feature nearest to the probe among those within `r` of it,
    /// and its distance.
    ///
    /// Fails with `OutOfBounds` where the probe does not touch the
    /// root bounds, with `Empty` where the tree holds nothing, with
    /// `NoneInRadius` where nothing lies within `r`, and with the first
    /// error that measuring gives on the way.
    pub fn find_r<X: DistEuclidean + DistHaversine>(&self, probe: &Geometry, math: &X, r: Dist) -> (res: Result<
        (&D, Dist),
        Error,
    >)
        ensures
            self@.calc_method == CalcMethod::NotSet ==> res == Err::<(&D, Dist), Error>(
                Error::CalcMethodNotSet,
            ),
            res matches Ok((d, dist)) ==> dist <= r && exists|e: Entry<D>|
                #![auto]
                self@.root.items().contains(e) && e.datum == *d && self.calc(probe, math).measures(
                    e.geom.spec_as_geom(),
                    Ok(dist),
                ),
            forall|o: Oracle| #[trigger]
                self.calc(probe, math).agrees(o) ==> seen(res) == datum_found(
                    found(self@, o, true, r),
                ),
    {
        let calc = GeomCalc::new(probe.as_geom(), self.calc_method, math);
        assert(calc == self.calc(probe, math));
        match find_in(&self.root, self.size, &calc, true, r) {
            Ok((e, d)) => Ok((&e.datum, d)),
            Err(x) => Err(x),
        }
    }

    /// The feature nearest to the probe, and its distance.
    pub fn find<X: DistEuclidean + DistHaversine>(&self, probe: &Geometry, math: &X) -> (res: Result<
        (&D, Dist),
        Error,
    >)
        ensures
            self@.calc_method == CalcMethod::NotSet ==> res == Err::<(&D, Dist), Error>(
                Error::CalcMethodNotSet,
            ),
            res matches Ok((d, dist)) ==> exists|e: Entry<D>|
                #![auto]
                self@.root.items().contains(e) && e.datum == *d && self.calc(probe, math).measures(
                    e.geom.spec_as_geom(),
                    Ok(dist),
                ),
            forall|o: Oracle| #[trigger]
                self.calc(probe, math).agrees(o) ==> seen(res) == datum_found(
                    found(self@, o, true, UNBOUNDED),
                ),
    {
        self.find_r(probe, math, UNBOUNDED)
    }

    /// The `k` features nearest to the probe among those within `r`
    /// of it, nearest first, each with its distance. Fewer are returned
    /// where fewer lie within `r`.
    ///
    /// Fails with `OutOfBounds` where the probe does not touch the
    /// root bounds, and with the first error that measuring gives on the
    /// way; a distance that is not finite is the error `InvalidDistance`.
    pub fn knn_r<X: DistEuclidean + DistHaversine>(&self, probe: &Geometry, math: &X, k: usize, r: Dist) -> (res:
        Result<Vec<(&D, Dist)>, Error>)
        ensures
            self@.calc_method == CalcMethod::NotSet ==> res is Err && res->Err_0
                == Error::CalcMethodNotSet,
            res matches Ok(v) ==> v@.len() <= k && forall|i: int|
                0 <= i < v@.len() ==> (#[trigger] v@[i]).1 <= r && exists|e: Entry<D>|
                    #![auto]
                    self@.root.items().contains(e) && e.datum == *v@[i].0 && self.calc(probe, math).measures(e.geom.spec_as_geom(), Ok(v@[i].1)),
            forall|o: Oracle| #[trigger]
                self.calc(probe, math).agrees(o) ==> all_seen(res) == datum_hits(
                    knn_found(self@.root, o, k as nat, r),
                ),
    {
        let calc = GeomCalc::new(probe.as_geom(), self.calc_method, math);
        assert(calc == self.calc(probe, math));
        match knn(&self.root, &calc, k, r) {
            Err(x) => Err(x),
            Ok(found) => {
                let out = data_of_hits(found);
                proof {
                    let hs = hits(found@);
                    assert forall|i: int| 0 <= i < out@.len() implies (#[trigger] out@[i]).1 <= r
                        && exists|e: Entry<D>|
                        #![auto]
                        self@.root.items().contains(e) && e.datum == *out@[i].0 && calc.measures(
                            e.geom.spec_as_geom(),
                            Ok(out@[i].1),
                        ) by {
                        assert(hs[i].1 <= r);
                        assert(self@.root.items().contains(hs[i].0));
                    }
                    assert(all_seen(Ok::<Vec<(&D, Dist)>, Error>(out)) =~= datum_hits(
                        Ok::<Seq<(Entry<D>, Dist)>, Error>(hs),
                    )) by {
                        let a = all_seen(Ok::<Vec<(&D, Dist)>, Error>(out))->Ok_0;
                        let b = datum_hits(Ok::<Seq<(Entry<D>, Dist)>, Error>(hs))->Ok_0;
                        assert(a =~= b);
                    }
                }
                Ok(out)
            },
        }
    }

    /// The `k` features nearest to the probe, nearest first, each
    /// with its distance.
    pub fn knn<X: DistEuclidean + DistHaversine>(&self, probe: &Geometry, math: &X, k: usize) -> (res: Result<
        Vec<(&D, Dist)>,
        Error,
    >)
        ensures
            self@.calc_method == CalcMethod::NotSet ==> res is Err && res->Err_0
                == Error::CalcMethodNotSet,
            res matches Ok(v) ==> v@.len() <= k,
            forall|o: Oracle| #[trigger]
                self.calc(probe, math).agrees(o) ==> all_seen(res) == datum_hits(
                    knn_found(self@.root, o, k as nat, UNBOUNDED),
                ),
    {
        self.knn_r(probe, math, k, UNBOUNDED)
    }

    /// A walk of the tree in order of distance from the probe. It
    /// gives nothing where the probe does not touch the root bounds.
    pub fn sorted<'a, 'b, X: DistEuclidean + DistHaversine>(&'a self, probe: &'b Geometry, math: &'b X) -> (it: SortIter<
        'a,
        'b,
        D,
        X,
    >)
        ensures
            it.wf(),
            it.calc() == self.calc(probe, math),
            it.pool() == self@.root.items(),
            forall|o: Oracle| #[trigger]
                self.calc(probe, math).agrees(o) ==> it@ == walk_start(self@.root, o),
    {
        SortIter::new(&self.root, GeomCalc::new(probe.as_geom(), self.calc_method, math))
    }

    /// A dump of the tree for debugging: a title, and a line for each
    /// node.
    pub fn display(&self) -> (s: String)
        ensures
            s@ == "Bounds Quadtree Root:\n"@ + self@.root.dump(),
    {
        let mut s = String::new();
        crate::text::append(&mut s, "Bounds Quadtree Root:\n");
        self.root.display_into(&mut s);
        s
    }

    /// All the data, in preorder.
    pub fn iter(&self) -> (all: Vec<&D>)
        ensures
            targets(all@) == datums(self@.root.items()),
    {
        data_of(self.root.descendants())
    }
}

/// Whether a tree takes a shape, and the error where it does not.
pub open spec fn insert_outcome<D>(t: TreeView<D>, geom: Geometry) -> Result<(), Error> {
    match geom.spec_bounding_rect() {
        None => Err(Error::CannotMakeBbox),
        Some(b) => if t.root.bounds.has_rect(b) {
            Ok(())
        } else {
            Err(Error::OutOfBounds)
        },
    }
}

} // verus!
