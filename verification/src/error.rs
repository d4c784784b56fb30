use vstd::prelude::*;

verus! {

/// What an operation on a quadtree can fail with.
#[non_exhaustive]
#[derive(Debug, Clone, Copy, PartialEq, Eq, Structural)]
pub enum Error {
    /// The item or the probe lies outside the root bounds.
    OutOfBounds,
    /// The geometry has no bounding rectangle.
    CannotMakeBbox,
    /// No sub-node could be chosen for the item.
    CannotFindSubNode,
    /// Nothing was found within the radius.
    NoneInRadius,
    /// A distance was not a finite number.
    InvalidDistance,
    /// The tree holds nothing.
    Empty,
    /// The unbounded radius has no representation.
    CannotCastInfinity,
    /// The tree was built without a way to measure.
    CalcMethodNotSet,
    /// The pair of shapes cannot be measured.
    UnsupportedGeometry,
}

impl Error {
    /// The variant's name, as debugging output shows it.
    pub fn name(&self) -> (s: &'static str)
        ensures
            s@ == self.spec_name(),
    {
        match self {
            Error::OutOfBounds => "OutOfBounds",
            Error::CannotMakeBbox => "CannotMakeBbox",
            Error::CannotFindSubNode => "CannotFindSubNode",
            Error::NoneInRadius => "NoneInRadius",
            Error::InvalidDistance => "InvalidDistance",
            Error::Empty => "Empty",
            Error::CannotCastInfinity => "CannotCastInfinity",
            Error::CalcMethodNotSet => "CalcMethodNotSet",
            Error::UnsupportedGeometry => "UnsupportedGeometry",
        }
    }

    /// The variant's name.
    pub open spec fn spec_name(&self) -> Seq<char> {
        match self {
            Error::OutOfBounds => "OutOfBounds"@,
            Error::CannotMakeBbox => "CannotMakeBbox"@,
            Error::CannotFindSubNode => "CannotFindSubNode"@,
            Error::NoneInRadius => "NoneInRadius"@,
            Error::InvalidDistance => "InvalidDistance"@,
            Error::Empty => "Empty"@,
            Error::CannotCastInfinity => "CannotCastInfinity"@,
            Error::CalcMethodNotSet => "CalcMethodNotSet"@,
            Error::UnsupportedGeometry => "UnsupportedGeometry"@,
        }
    }
}

} // verus!
