//! Why a solve was given up.

use vstd::prelude::*;

verus! {

/// The ways in which a solve can fail. The first three are configuration
/// errors of the grid; the last two are violations of what the searches
/// expect of their adjacency structure.
#[derive(Debug, Clone, Copy, PartialEq, Eq, Structural)]
pub enum SolveError {
    /// The grid has no row, an empty row, or rows of different lengths.
    MalformedGrid,
    /// Neither the top row nor the left column holds a cell that is not a wall.
    StartNotFound,
    /// Neither the bottom row nor the right column holds a path cell.
    EndNotFound,
    /// A search met a cell without an adjacency entry, or a neighbour that
    /// lies outside the grid.
    BrokenAdjacency,
    /// The shortest-path search never discovered the end, so it has no
    /// predecessor to walk back from.
    MissingParent,
}

impl SolveError {
    /// Whether the error says that the grid itself cannot be solved.
    pub open spec fn configuration(self) -> bool {
        self == SolveError::MalformedGrid || self == SolveError::StartNotFound || self
            == SolveError::EndNotFound
    }

    /// Whether the error is a configuration error, as opposed to a violated
    /// internal invariant.
    pub fn is_configuration(&self) -> (b: bool)
        ensures
            b == self.configuration(),
    {
        match self {
            SolveError::MalformedGrid => true,
            SolveError::StartNotFound => true,
            SolveError::EndNotFound => true,
            SolveError::BrokenAdjacency => false,
            SolveError::MissingParent => false,
        }
    }
}

} // verus!
