//! A small builder for grids: collects a size, then populates the grid.

use vstd::prelude::*;

use crate::board::grid::Board;
use crate::board::size::Size;

verus! {

/// Collects the parameters a grid is built from.
#[derive(Debug)]
pub struct Builder {
    size: Option<Size>,
}

/// Why a grid could not be built.
#[derive(Debug, PartialEq, Eq, Structural, Clone, Copy)]
pub enum BuildError {
    /// No size was supplied before building.
    MissingSize,
}

/// The outcome of building a grid.
pub type BuildResult<Cell> = Result<Board<Cell>, BuildError>;

impl Default for Builder {
    /// The same empty builder that `new` returns.
    fn default() -> (r: Builder)
        ensures
            r.spec_size() is None,
    {
        Builder { size: None }
    }
}

impl Builder {
    /// The size collected so far, for use in specifications.
    pub closed spec fn spec_size(&self) -> Option<Size> {
        self.size
    }

    /// A builder with no size chosen yet.
    pub fn new() -> (r: Builder)
        ensures
            r.spec_size() is None,
    {
        Builder { size: None }
    }

    /// Chooses the size of the grid to build.
    pub fn size(self, s: Size) -> (r: Builder)
        ensures
            r.spec_size() == Some(s),
    {
        Builder { size: Some(s) }
    }

    /// Builds the grid, every cell set to `default`; fails when no size was
    /// chosen.
    pub fn build<Cell: Copy>(self, default: Cell) -> (r: BuildResult<Cell>)
        ensures
            self.spec_size() is None <==> r == BuildResult::<Cell>::Err(BuildError::MissingSize),
            self.spec_size() matches Some(s) ==> (r matches Ok(b) && b.wf() && b.spec_size() == s
                && forall|x: int, y: int| b.in_range(x, y) ==> b.spec_at(x, y) == default),
    {
        match self.size {
            Some(s) => Ok(Board::<Cell>::new(s, default)),
            None => Err(BuildError::MissingSize),
        }
    }
}

} // verus!
