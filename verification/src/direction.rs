//! The four sides of a tile.

use vstd::prelude::*;

verus! {

/// A side of a tile, and the direction in which a neighbour lies.
///
/// The order `Up`, `Right`, `Down`, `Left` is the order in which a tile lists
/// its edge signatures.
#[derive(PartialEq, Eq, Copy, Clone, Debug, Structural)]
pub enum Direction {
    Up,
    Right,
    Down,
    Left,
}

impl Direction {
    /// The position of this side in a tile's list of edges.
    pub open spec fn spec_index(self) -> usize {
        match self {
            Direction::Up => 0,
            Direction::Right => 1,
            Direction::Down => 2,
            Direction::Left => 3,
        }
    }

    /// The side that faces this one across a shared boundary.
    pub open spec fn spec_opposite(self) -> Direction {
        match self {
            Direction::Up => Direction::Down,
            Direction::Right => Direction::Left,
            Direction::Down => Direction::Up,
            Direction::Left => Direction::Right,
        }
    }

    /// The position of this side in a tile's list of edges.
    #[verifier::when_used_as_spec(spec_index)]
    pub fn index(self) -> (i: usize)
        ensures
            i == self.spec_index(),
            i < 4,
    {
        match self {
            Direction::Up => 0,
            Direction::Right => 1,
            Direction::Down => 2,
            Direction::Left => 3,
        }
    }

    /// The side that faces this one across a shared boundary.
    #[verifier::when_used_as_spec(spec_opposite)]
    pub fn opposite(self) -> (d: Direction)
        ensures
            d == self.spec_opposite(),
    {
        match self {
            Direction::Up => Direction::Down,
            Direction::Right => Direction::Left,
            Direction::Down => Direction::Up,
            Direction::Left => Direction::Right,
        }
    }
}

/// Turning round twice gives the side one started from.
pub proof fn lemma_opposite_involutive(d: Direction)
    ensures
        d.opposite().opposite() == d,
        d.opposite() != d,
{
}

} // verus!
