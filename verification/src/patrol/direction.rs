use vstd::prelude::*;

verus! {

/// One of the four compass directions a guard can face.
#[derive(PartialEq, Eq, Structural, Debug, Clone, Copy, Hash)]
pub enum Direction {
    Up,
    Down,
    Left,
    Right,
}

impl Direction {
    /// The direction reached by one clockwise quarter turn.
    pub open spec fn rotated(self) -> Direction {
        match self {
            Direction::Up => Direction::Right,
            Direction::Right => Direction::Down,
            Direction::Down => Direction::Left,
            Direction::Left => Direction::Up,
        }
    }

    /// The index of the direction in a table of four slots.
    pub open spec fn index(self) -> nat {
        match self {
            Direction::Up => 0,
            Direction::Down => 1,
            Direction::Left => 2,
            Direction::Right => 3,
        }
    }

    /// Turns the direction a quarter turn clockwise, in place.
    pub fn rotate90(&mut self)
        ensures
            *final(self) == old(self).rotated(),
    {
        *self = match self {
            Direction::Up => Direction::Right,
            Direction::Right => Direction::Down,
            Direction::Down => Direction::Left,
            Direction::Left => Direction::Up,
        }
    }

    /// The table index of the direction, below four.
    pub fn to_int(&self) -> (r: usize)
        ensures
            r == self.index(),
            r < 4,
    {
        match self {
            Self::Up => 0,
            Self::Down => 1,
            Self::Left => 2,
            Self::Right => 3,
        }
    }
}

/// Four quarter turns bring a direction back to itself, and no fewer do.
pub proof fn lemma_rotation_cycle(d: Direction)
    ensures
        d.rotated().rotated().rotated().rotated() == d,
        d.rotated() != d,
        d.rotated().rotated() != d,
        d.rotated().rotated().rotated() != d,
{
}

} // verus!
