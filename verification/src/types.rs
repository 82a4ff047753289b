//! Core data types: tiles, directions, points and the grid.

use vstd::prelude::*;

verus! {

/// The occupancy state of one grid cell.
#[derive(Copy, Clone, Debug, Eq, PartialEq, Structural)]
pub enum Tile {
    Free,
    Snake,
    Food,
    Obstacle,
    Crash,
}

/// A unit step vector on the grid.
#[derive(Clone, Copy, Debug, Eq, PartialEq, Structural)]
pub enum Direction {
    North,
    South,
    West,
    East,
}

impl Direction {
    /// The 180-degree reversal; total and involutive.
    pub fn opposite(&self) -> (r: Direction)
        ensures
            r == self.opposite_spec(),
    {
        match self {
            Direction::North => Direction::South,
            Direction::South => Direction::North,
            Direction::West => Direction::East,
            Direction::East => Direction::West,
        }
    }

    pub open spec fn opposite_spec(self) -> Direction {
        match self {
            Direction::North => Direction::South,
            Direction::South => Direction::North,
            Direction::West => Direction::East,
            Direction::East => Direction::West,
        }
    }
}

/// The reversal is an involution: applying it twice gives the
/// original direction back.
pub proof fn lemma_opposite_involutive(d: Direction)
    ensures
        d.opposite_spec().opposite_spec() == d,
{
}

/// An (x, y) grid coordinate, 0-based.
pub type Point = (usize, usize);

/// A rectangular field of tiles, indexed as `grid[x][y]`.
pub type Grid = Vec<Vec<Tile>>;

/// The snake body, head first.
pub type Snake = std::collections::VecDeque<Point>;

} // verus!
