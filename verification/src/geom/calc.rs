//! Measuring: the shape that a search is probed with, the geometry to
//! measure in, and the formulas of that geometry, which the caller brings.

use vstd::prelude::*;
use crate::error::Error;
use crate::geom::euclidean::{dist_euclidean, lemma_planar_one_answer, planar_answer};
use crate::geom::geometry::{Geometry, GeometryRef, Line};
use crate::geom::point::Point;
use crate::geom::rect::Rect;
use crate::geom::spherical::{dist_haversine, lemma_sphere_one_answer, sphere_answer};
use crate::geom::CalcMethod;

verus! {

/// A distance. Only the order of distances matters to a search; the
/// greatest value stands for no bound, and for what is not a finite number.
pub type Dist = u64;

/// The distance that bounds nothing.
pub const UNBOUNDED: Dist = u64::MAX;

/// The formula for distances in the plane: the least distance between a
/// point of one shape and a point of the other.
pub trait DistEuclidean {
    /// The distance between two shapes.
    fn dist_euclidean(&self, lhs: &GeometryRef<'_>, rhs: &GeometryRef<'_>) -> Dist;
}

/// The formulas for distances on the unit sphere, with positions as
/// longitude and latitude: the central angle between two positions, and
/// between a position and a segment.
pub trait DistHaversine {
    /// The central angle between two positions.
    fn dist_pt_pt(&self, a: &Point, b: &Point) -> Dist;

    /// The central angle between a position and the nearest position of a
    /// segment.
    fn dist_pt_line(&self, pt: &Point, line: &Line) -> Dist;
}

/// Every formula has one answer only for what it is given.
pub open spec fn pure_math<X: DistEuclidean + DistHaversine>(math: &X) -> bool {
    &&& forall|a: &GeometryRef<'_>, b: &GeometryRef<'_>, d1: Dist, d2: Dist|
        #[trigger] call_ensures(X::dist_euclidean, (math, a, b), d1) && #[trigger] call_ensures(
            X::dist_euclidean,
            (math, a, b),
            d2,
        ) ==> d1 == d2
    &&& forall|a: &Point, b: &Point, d1: Dist, d2: Dist|
        #[trigger] call_ensures(X::dist_pt_pt, (math, a, b), d1) && #[trigger] call_ensures(
            X::dist_pt_pt,
            (math, a, b),
            d2,
        ) ==> d1 == d2
    &&& forall|a: &Point, b: &Line, d1: Dist, d2: Dist|
        #[trigger] call_ensures(X::dist_pt_line, (math, a, b), d1) && #[trigger] call_ensures(
            X::dist_pt_line,
            (math, a, b),
            d2,
        ) ==> d1 == d2
}

/// A shape to measure from, the geometry to measure in, and the formulas.
pub struct GeomCalc<'a, X> {
    pub geom: GeometryRef<'a>,
    pub method: CalcMethod,
    pub math: &'a X,
}

impl<'a, X: DistEuclidean + DistHaversine> GeomCalc<'a, X> {
    /// `out` is an answer that measuring the shape can give: the error
    /// `CalcMethodNotSet` where no geometry was chosen, and else what the
    /// formula of the chosen geometry can answer.
    pub open spec fn measures(&self, target: GeometryRef<'_>, out: Result<Dist, Error>) -> bool {
        match self.method {
            CalcMethod::NotSet => out == Err::<Dist, Error>(Error::CalcMethodNotSet),
            CalcMethod::Euclidean => out matches Ok(d) && planar_answer(
                self.math,
                self.geom,
                target,
                d,
            ),
            CalcMethod::Spherical => sphere_answer(self.math, self.geom, target, out),
        }
    }

    /// Every answer that measuring can give is the one that `o` gives.
    pub open spec fn agrees(&self, o: spec_fn(Geometry) -> Result<Dist, Error>) -> bool {
        forall|g: Geometry, out: Result<Dist, Error>|
            #[trigger] self.measures(g.spec_as_geom(), out) ==> out == o(g)
    }

    /// An answer given is the one of a function that measuring agrees with.
    pub proof fn lemma_agrees(
        &self,
        o: spec_fn(Geometry) -> Result<Dist, Error>,
        g: Geometry,
        out: Result<Dist, Error>,
    )
        requires
            self.agrees(o),
            self.measures(g.spec_as_geom(), out),
        ensures
            out == o(g),
    {
    }

    /// Measuring a shape has one answer only.
    pub open spec fn functional(&self) -> bool {
        forall|t: GeometryRef<'_>, a: Result<Dist, Error>, b: Result<Dist, Error>|
            #[trigger] self.measures(t, a) && #[trigger] self.measures(t, b) ==> a == b
    }

    /// Where every formula has one answer only, so has measuring.
    pub proof fn lemma_functional(&self)
        requires
            pure_math(self.math),
        ensures
            self.functional(),
    {
        assert forall|t: GeometryRef<'_>, a: Result<Dist, Error>, b: Result<Dist, Error>|
            #[trigger] self.measures(t, a) && #[trigger] self.measures(t, b) implies a == b by {
            match self.method {
                CalcMethod::NotSet => {},
                CalcMethod::Euclidean => {
                    lemma_planar_one_answer(self.math, self.geom, t, a->Ok_0, b->Ok_0);
                },
                CalcMethod::Spherical => {
                    lemma_sphere_one_answer(self.math, self.geom, t, a, b);
                },
            }
        }
    }

    /// An answer that measuring the shape can give.
    pub open spec fn value(&self, g: Geometry) -> Result<Dist, Error> {
        choose|out: Result<Dist, Error>| self.measures(g.spec_as_geom(), out)
    }

    /// `value` as a function of the shape.
    pub open spec fn oracle(&self) -> spec_fn(Geometry) -> Result<Dist, Error> {
        |g: Geometry| self.value(g)
    }

    /// Where measuring has one answer only, it agrees with `oracle`.
    pub proof fn lemma_oracle_agrees(&self)
        requires
            self.functional(),
        ensures
            self.agrees(self.oracle()),
    {
        assert forall|g: Geometry, out: Result<Dist, Error>| #[trigger]
            self.measures(g.spec_as_geom(), out) implies out == (self.oracle())(g) by {
            let v = self.value(g);
            assert(self.measures(g.spec_as_geom(), v));
        }
    }

    /// The probe `geom`, to be measured from in the geometry `method` with
    /// the formulas `math`.
    pub fn new(geom: GeometryRef<'a>, method: CalcMethod, math: &'a X) -> (c: Self)
        ensures
            c == (GeomCalc { geom, method, math }),
    {
        GeomCalc { geom, method, math }
    }

    /// The distance from the probe to a shape.
    pub fn dist_geom(&self, geom: &GeometryRef<'_>) -> (out: Result<Dist, Error>)
        ensures
            self.measures(*geom, out),
    {
        match self.method {
            CalcMethod::NotSet => Err(Error::CalcMethodNotSet),
            CalcMethod::Euclidean => Ok(dist_euclidean(self.math, &self.geom, geom)),
            CalcMethod::Spherical => dist_haversine(self.math, &self.geom, geom),
        }
    }

    /// The distance from the probe to a rectangle.
    pub fn dist_bbox(&self, bbox: &Rect) -> (out: Result<Dist, Error>)
        ensures
            self.measures(GeometryRef::Rect(bbox), out),
    {
        let g = GeometryRef::Rect(bbox);
        self.dist_geom(&g)
    }
}

impl<'a> GeometryRef<'a> {
    /// The shape as the probe of a search in the given geometry.
    pub fn into_calc<X: DistEuclidean + DistHaversine>(self, method: CalcMethod, math: &'a X) -> (c:
        GeomCalc<'a, X>)
        ensures
            c == (GeomCalc { geom: self, method, math }),
    {
        GeomCalc { geom: self, method, math }
    }
}

impl Geometry {
    /// The shape as the probe of a search in the given geometry.
    pub fn with_calc<'a, X: DistEuclidean + DistHaversine>(
        &'a self,
        method: CalcMethod,
        math: &'a X,
    ) -> (c: GeomCalc<'a, X>)
        ensures
            c == (GeomCalc { geom: self.spec_as_geom(), method, math }),
    {
        self.as_geom().into_calc(method, math)
    }
}

} // verus!
