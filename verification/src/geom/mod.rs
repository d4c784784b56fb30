pub mod calc;
pub mod euclidean;
pub mod geometry;
pub mod math;
pub mod point;
pub mod rect;
pub mod spherical;
pub mod squared;

use vstd::prelude::*;

verus! {

/// The geometry in which a tree measures distances.
///
/// `NotSet` makes every distance query fail. `Euclidean` is the plane.
/// `Spherical` is the unit sphere, with positions as longitude and latitude
/// and distances as central angles.
#[derive(Debug, Clone, Copy, PartialEq, Eq, Structural)]
pub enum CalcMethod {
    NotSet,
    Euclidean,
    Spherical,
}

} // verus!
