//! Errors reported by maze construction and by the solver.

use vstd::prelude::*;

verus! {

/// Everything that can go wrong when building a maze or solving it.
///
/// All variants report invalid constructed input or a violated caller
/// contract; none is transient.
#[derive(Clone, Debug, PartialEq, Eq, Structural)]
pub enum MazeError {
    /// The grid is smaller than 3 x 3 in one of its dimensions.
    TooSmall,
    /// Text input held a character that is neither floor nor wall.
    InvalidCharacter(char),
    /// The start column lies at or beyond the grid width.
    StartXOutOfBounds,
    /// The start row lies at or beyond the grid height.
    StartYOutOfBounds,
    /// The start coordinate resolves to a wall cell.
    StartOnWall,
    /// The solver was asked to search from a coordinate outside the grid.
    /// Unreachable through this crate's public operations.
    OutOfBounds(usize, usize),
}

} // verus!
