//! Board dimensions: two positive integers, validated at construction.

use vstd::prelude::*;

use crate::board::direction::Axis;

verus! {

/// The integer type a board dimension is measured in.
pub type SizeUnit = u16;

/// A validated board size: both dimensions are strictly positive.
#[derive(Debug, PartialEq, Eq, Structural, Clone, Copy)]
pub struct Size {
    x: SizeUnit,
    y: SizeUnit,
}

/// Why a requested size was rejected.
#[derive(Debug, PartialEq, Eq, Structural, Clone, Copy)]
pub enum SizeError {
    /// The named axis was given a zero dimension.
    ZeroSize(Axis),
}

/// The outcome of validating a size.
pub type SizeResult = Result<Size, SizeError>;

impl Size {
    /// The width, for use in specifications.
    pub closed spec fn spec_x(&self) -> SizeUnit {
        self.x
    }

    /// The height, for use in specifications.
    pub closed spec fn spec_y(&self) -> SizeUnit {
        self.y
    }

    /// Validates a width/height pair. A zero dimension is rejected, the x
    /// axis being reported first when both are zero.
    pub fn new(x: SizeUnit, y: SizeUnit) -> (r: SizeResult)
        ensures
            x == 0 ==> r == SizeResult::Err(SizeError::ZeroSize(Axis::X)),
            x != 0 && y == 0 ==> r == SizeResult::Err(SizeError::ZeroSize(Axis::Y)),
            x != 0 && y != 0 ==> (r matches Ok(s) && s.spec_x() == x && s.spec_y() == y),
            r is Ok <==> (x != 0 && y != 0),
    {
        match (x, y) {
            (0, _) => Err(SizeError::ZeroSize(Axis::X)),
            (_, 0) => Err(SizeError::ZeroSize(Axis::Y)),
            (x, y) => Ok(Size { x, y }),
        }
    }

    /// The width.
    #[verifier::when_used_as_spec(spec_x)]
    pub fn x(&self) -> (r: SizeUnit)
        ensures
            r == self.spec_x(),
    {
        self.x
    }

    /// The height.
    #[verifier::when_used_as_spec(spec_y)]
    pub fn y(&self) -> (r: SizeUnit)
        ensures
            r == self.spec_y(),
    {
        self.y
    }
}

} // verus!
