use vstd::prelude::*;
use crate::patrol::direction::Direction;

verus! {

/// A cell of the grid, as (row, column).
pub type Position = (usize, usize);

/// The guard's state: where it stands and which way it faces.
#[derive(PartialEq, Eq, Debug, Clone, Copy, Hash)]
pub struct Guard {
    pub pos: Position,
    pub direction: Direction,
}

/// Whether `p` lies inside the square grid of side `size`.
pub open spec fn in_bounds(size: usize, p: Position) -> bool {
    p.0 < size && p.1 < size
}

impl Guard {
    /// Whether `p` lies strictly ahead of the guard, in its row or column.
    pub open spec fn ahead(self, p: Position) -> bool {
        match self.direction {
            Direction::Left => p.0 == self.pos.0 && p.1 < self.pos.1,
            Direction::Right => p.0 == self.pos.0 && p.1 > self.pos.1,
            Direction::Up => p.1 == self.pos.1 && p.0 < self.pos.0,
            Direction::Down => p.1 == self.pos.1 && p.0 > self.pos.0,
        }
    }

    /// The number of cells between the guard and a cell in its line.
    pub open spec fn distance(self, p: Position) -> int {
        match self.direction {
            Direction::Left => self.pos.1 - p.1,
            Direction::Right => p.1 - self.pos.1,
            Direction::Up => self.pos.0 - p.0,
            Direction::Down => p.0 - self.pos.0,
        }
    }

    /// Whether `p` is on the guard's line of sight: its own cell or one ahead.
    pub open spec fn sees(self, p: Position) -> bool {
        p == self.pos || self.ahead(p)
    }

    /// The cell just before `b` for a guard that has `b` ahead of it.
    pub open spec fn before(self, b: Position) -> Position {
        match self.direction {
            Direction::Left => (b.0, (b.1 + 1) as usize),
            Direction::Right => (b.0, (b.1 - 1) as usize),
            Direction::Up => ((b.0 + 1) as usize, b.1),
            Direction::Down => ((b.0 - 1) as usize, b.1),
        }
    }

    pub fn new(pos: Position, direction: Direction) -> (g: Guard)
        ensures
            g.pos == pos,
            g.direction == direction,
    {
        Guard { pos, direction }
    }

    /// Whether two guards stand on the same cell facing the same way.
    pub fn same(&self, other: &Guard) -> (r: bool)
        ensures
            r == (*self == *other),
    {
        self.pos.0 == other.pos.0 && self.pos.1 == other.pos.1 && self.direction == other.direction
    }
}

} // verus!
