//! Cells of the maze grid and their drawing symbols.

use vstd::prelude::*;

verus! {

/// A value that is drawn as a single symbol when a maze is rendered.
pub trait AsChar {
    fn as_char(&self) -> char;
}

/// The kind of a floor cell: plain floor, the start marker used when
/// rendering, or a cell on the path found by the solver.
#[derive(Clone, Debug, PartialEq, Eq, Structural)]
pub enum FloorType {
    Floor,
    Start,
    Path,
}

/// One cell of the grid: an impassable wall or a kind of floor.
#[derive(Clone, Debug, PartialEq, Eq, Structural)]
pub enum MazeCell {
    Wall,
    Floor(FloorType),
}

/// The symbol a floor kind is drawn as.
pub open spec fn floor_symbol(f: FloorType) -> char {
    match f {
        FloorType::Floor => '⬛',
        FloorType::Start => '❌',
        FloorType::Path => '👣',
    }
}

/// The symbol a cell is drawn as when it is not the start coordinate.
pub open spec fn cell_symbol(c: MazeCell) -> char {
    match c {
        MazeCell::Wall => '⬜',
        MazeCell::Floor(f) => floor_symbol(f),
    }
}

impl Default for FloorType {
    /// The default floor kind is plain floor.
    fn default() -> (r: Self)
        ensures
            r == FloorType::Floor,
    {
        FloorType::Floor
    }
}

impl Default for MazeCell {
    /// The default cell is a wall.
    fn default() -> (r: Self)
        ensures
            r == MazeCell::Wall,
    {
        MazeCell::Wall
    }
}

impl AsChar for FloorType {
    fn as_char(&self) -> (c: char)
        ensures
            c == floor_symbol(*self),
    {
        match self {
            FloorType::Floor => '⬛',
            FloorType::Start => '❌',
            FloorType::Path => '👣',
        }
    }
}

impl AsChar for MazeCell {
    fn as_char(&self) -> (c: char)
        ensures
            c == cell_symbol(*self),
    {
        match self {
            MazeCell::Wall => '⬜',
            MazeCell::Floor(f) => f.as_char(),
        }
    }
}

impl MazeCell {
    /// Maps `true` to plain floor and `false` to a wall.
    pub fn from_bool(value: bool) -> (c: Self)
        ensures
            c == Self::spec_from_bool(value),
    {
        if value {
            MazeCell::Floor(FloorType::Floor)
        } else {
            MazeCell::Wall
        }
    }

    /// What [`Self::from_bool`] returns: `true` is floor, `false` is wall.
    pub open spec fn spec_from_bool(value: bool) -> Self {
        if value {
            MazeCell::Floor(FloorType::Floor)
        } else {
            MazeCell::Wall
        }
    }
}

} // verus!
