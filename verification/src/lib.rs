//! A rectangular grid maze and a depth-first solver.
//!
//! A [`Maze`] owns a row-major matrix of cells, each either a wall or a kind
//! of floor, together with a validated start coordinate. Its solver searches
//! depth first, with a fixed neighbor order, for a route from the start to
//! any cell on the outer edge of the grid, and marks the cells of the route
//! it found as path floor, in place.

pub mod cell;
pub mod error;
pub mod grid;
pub mod model;

pub use cell::AsChar;
pub use cell::FloorType;
pub use cell::MazeCell;
pub use error::MazeError;
pub use grid::Maze;
pub use grid::Solvable;
