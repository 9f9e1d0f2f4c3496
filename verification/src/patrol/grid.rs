use vstd::prelude::*;
use crate::patrol::bitset::reads_before;
use crate::patrol::guard::{Guard, Position, in_bounds};
use crate::patrol::index::ObstacleIndex;
use crate::patrol::obstacles::{is_next_obstacle, next_obstacle};

verus! {

/// A square grid with its obstacles, on which one more obstacle can be put
/// for a while.
#[derive(Debug)]
pub struct Grid {
    index: ObstacleIndex,
    temp: Option<Position>,
}

impl View for Grid {
    type V = Set<Position>;

    /// The cells that hold an obstacle, the one put for a while included.
    closed spec fn view(&self) -> Set<Position> {
        self.index@
    }
}

/// The obstacles, and the cell of the one put for a while, after one is put
/// on `pos`: where an obstacle stands on `pos` already, nothing is put.
pub open spec fn with_temp(obstacles: Set<Position>, pos: Position) -> (Set<Position>, Option<Position>) {
    if obstacles.contains(pos) {
        (obstacles, None)
    } else {
        (obstacles.insert(pos), Some(pos))
    }
}

/// The obstacles, and the cell of the one put for a while, after the one
/// put on `pos` is taken away: where none was put on `pos`, nothing is
/// taken.
pub open spec fn without_temp(
    obstacles: Set<Position>,
    temp: Option<Position>,
    pos: Position,
) -> (Set<Position>, Option<Position>) {
    if temp == Some(pos) {
        (obstacles.remove(pos), None)
    } else {
        (obstacles, temp)
    }
}

/// Putting an obstacle on a cell for a while and taking it away again
/// leaves the obstacles as they were, whatever the cell.
pub proof fn lemma_temp_obstacle_leaves_no_trace(obstacles: Set<Position>, pos: Position)
    ensures
        without_temp(with_temp(obstacles, pos).0, with_temp(obstacles, pos).1, pos) == (
            obstacles,
            None::<Position>,
        ),
{
    if !obstacles.contains(pos) {
        assert(obstacles.insert(pos).remove(pos) =~= obstacles);
    }
}

impl Grid {
    /// The side of the grid.
    pub closed spec fn side(&self) -> usize {
        self.index.side()
    }

    /// The cell of the obstacle that was put for a while, if one is there.
    pub closed spec fn temp(&self) -> Option<Position> {
        self.temp
    }

    /// The lists of obstacles are in order, and the obstacle put for a
    /// while is among them.
    pub closed spec fn wf(&self) -> bool {
        &&& self.index.wf()
        &&& self.temp is Some ==> self.index@.contains(self.temp->Some_0)
    }

    /// Every obstacle is on a cell of the grid.
    pub proof fn lemma_obstacles_in_bounds(&self)
        ensures
            forall|p: Position| self@.contains(p) ==> in_bounds(self.side(), p),
    {
        self.index.lemma_members_in_bounds();
    }

    /// The grid of side `size` with the obstacles of `obstacles`.
    pub fn from_obstacles(size: usize, obstacles: &Vec<Position>) -> (grid: Grid)
        requires
            forall|i: int| 0 <= i < obstacles@.len() ==> in_bounds(size, #[trigger] obstacles@[i]),
        ensures
            grid.wf(),
            grid.side() == size,
            grid@ == obstacles@.to_set(),
            grid.temp() is None,
    {
        Grid { index: ObstacleIndex::from_obstacles(size, obstacles), temp: None }
    }

    /// The side of the grid.
    pub fn size(&self) -> (n: usize)
        ensures
            n == self.side(),
    {
        self.index.size()
    }

    /// The obstacles in reading order: by row, and within a row by column.
    pub fn obstacles(&self) -> (cells: Vec<Position>)
        requires
            self.wf(),
        ensures
            cells@.to_set() == self@,
            forall|i: int, j: int|
                0 <= i < j < cells@.len() ==> reads_before(#[trigger] cells@[i], #[trigger] cells@[j]),
    {
        self.index.to_vec()
    }

    /// Whether an obstacle stands on `pos`.
    pub fn obstacle_at(&self, pos: Position) -> (r: bool)
        requires
            self.wf(),
        ensures
            r == self@.contains(pos),
    {
        self.index.contains(pos)
    }

    /// Whether `pos` is a cell of the grid.
    pub fn in_bounds(&self, pos: Position) -> (r: bool)
        ensures
            r == in_bounds(self.side(), pos),
    {
        let size = self.index.size();
        pos.0 < size && pos.1 < size
    }

    /// Puts one more obstacle on `pos`, to be taken away again with
    /// `remove_temp_obstacle`. Where an obstacle stands on `pos` already,
    /// nothing is put.
    pub fn insert_temp_obstacle(&mut self, pos: Position)
        requires
            old(self).wf(),
            old(self).temp() is None,
            in_bounds(old(self).side(), pos),
        ensures
            final(self).wf(),
            final(self).side() == old(self).side(),
            (final(self)@, final(self).temp()) == with_temp(old(self)@, pos),
            final(self)@ == old(self)@.insert(pos),
    {
        if self.index.insert(pos) {
            self.temp = Some(pos);
        }
        proof {
            assert(old(self)@.contains(pos) ==> old(self)@.insert(pos) =~= old(self)@);
        }
    }

    /// Takes away the obstacle that was put on `pos` for a while. Where
    /// none was put there, nothing is taken.
    pub fn remove_temp_obstacle(&mut self, pos: Position)
        requires
            old(self).wf(),
        ensures
            final(self).wf(),
            final(self).side() == old(self).side(),
            (final(self)@, final(self).temp()) == without_temp(old(self)@, old(self).temp(), pos),
    {
        let held = match self.temp {
            Some(t) => t.0 == pos.0 && t.1 == pos.1,
            None => false,
        };
        if held {
            self.index.remove(pos);
            self.temp = None;
        }
    }

    /// The nearest obstacle strictly ahead of the guard, if there is one.
    pub fn next_obstacle(&self, guard: &Guard) -> (r: Option<Position>)
        requires
            self.wf(),
            in_bounds(self.side(), guard.pos),
        ensures
            r == next_obstacle(self@, *guard),
            r is Some ==> is_next_obstacle(self@, *guard, r->Some_0),
    {
        self.index.next_obstacle(guard)
    }
}

} // verus!
