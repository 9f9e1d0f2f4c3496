use vstd::prelude::*;
use crate::patrol::bitset::{BitSet, col_span, row_span};
use crate::patrol::direction::Direction;
use crate::patrol::grid::Grid;
use crate::patrol::guard::{Guard, Position, in_bounds};
use crate::patrol::guard_set::GuardSet;
use crate::patrol::index::ObstacleIndex;
use crate::patrol::lightweight::LightWeightGuardSimulation;
use crate::patrol::obstacles::{
    is_next_obstacle,
    lemma_next_obstacle_is,
    next_obstacle,
};
use crate::patrol::counting::lemma_states_bounded;
use crate::patrol::path::{
    advance,
    covered,
    fresh_until,
    halts_after,
    lemma_covered_when_gone,
    lemma_covered_when_looping,
    lemma_one_more_move,
    lemma_revisit_loops,
    loops,
    obstacles_in_bounds,
    seen_states,
    state_after,
    traversed,
    visited_area,
};

verus! {

/// A patrol that records every cell the guard passes over.
#[derive(Debug)]
pub struct GuardSimulation {
    pub guard: Guard,
    pub size: usize,
    pub obstacles: Vec<Position>,
    pub index: ObstacleIndex,
    pub out_of_area: bool,
    pub visited_area: BitSet,
    pub in_loop: bool,
}

/// How far a patrol has come.
#[derive(PartialEq, Eq, Structural, Debug, Clone, Copy)]
pub enum Outcome {
    /// The guard is still on its way.
    Running,
    /// The guard has walked off the grid.
    Exited,
    /// The guard has come back to a state it was in.
    Looping,
}

/// The outcome that the two flags of a patrol tell. A patrol found to loop
/// counts as looping whatever the other flag says.
pub open spec fn outcome_of(out_of_area: bool, in_loop: bool) -> Outcome {
    if in_loop {
        Outcome::Looping
    } else if out_of_area {
        Outcome::Exited
    } else {
        Outcome::Running
    }
}

/// The outcome that the two flags of a patrol tell.
pub fn outcome_from(out_of_area: bool, in_loop: bool) -> (o: Outcome)
    ensures
        o == outcome_of(out_of_area, in_loop),
{
    if in_loop {
        Outcome::Looping
    } else if out_of_area {
        Outcome::Exited
    } else {
        Outcome::Running
    }
}

/// Why a grid cannot be patrolled.
#[derive(PartialEq, Eq, Structural, Debug, Clone, Copy)]
pub enum GridError {
    /// The grid has more cells than can be counted.
    TooLarge,
    /// The guard does not start on a cell of the grid.
    StartOutOfBounds,
    /// Some obstacle is not on a cell of the grid.
    ObstacleOutOfBounds,
    /// The guard starts on an obstacle.
    StartOnObstacle,
}

/// What is wrong with a grid of side `size`, its obstacles and the guard's
/// start, if anything; the first fault in the order of `GridError` counts.
pub open spec fn grid_fault(size: usize, obstacles: Seq<Position>, guard: Guard) -> Option<
    GridError,
> {
    if size * size > usize::MAX {
        Some(GridError::TooLarge)
    } else if !in_bounds(size, guard.pos) {
        Some(GridError::StartOutOfBounds)
    } else if exists|i: int| 0 <= i < obstacles.len() && !in_bounds(size, #[trigger] obstacles[i]) {
        Some(GridError::ObstacleOutOfBounds)
    } else if obstacles.contains(guard.pos) {
        Some(GridError::StartOnObstacle)
    } else {
        None
    }
}

/// The cells from the guard's own up to the one before obstacle `b` are a
/// span of its row or column.
pub proof fn lemma_traversed_to_obstacle(size: usize, obstacles: Set<Position>, g: Guard, b: Position)
    requires
        is_next_obstacle(obstacles, g, b),
    ensures
        traversed(size, obstacles, g) == match g.direction {
            Direction::Left => row_span(g.pos.0, (b.1 + 1) as usize, g.pos.1),
            Direction::Right => row_span(g.pos.0, g.pos.1, (b.1 - 1) as usize),
            Direction::Up => col_span(g.pos.1, (b.0 + 1) as usize, g.pos.0),
            Direction::Down => col_span(g.pos.1, g.pos.0, (b.0 - 1) as usize),
        },
{
    lemma_next_obstacle_is(obstacles, g, b);
    match g.direction {
        Direction::Left => assert(traversed(size, obstacles, g) =~= row_span(
            g.pos.0,
            (b.1 + 1) as usize,
            g.pos.1,
        )),
        Direction::Right => assert(traversed(size, obstacles, g) =~= row_span(
            g.pos.0,
            g.pos.1,
            (b.1 - 1) as usize,
        )),
        Direction::Up => assert(traversed(size, obstacles, g) =~= col_span(
            g.pos.1,
            (b.0 + 1) as usize,
            g.pos.0,
        )),
        Direction::Down => assert(traversed(size, obstacles, g) =~= col_span(
            g.pos.1,
            g.pos.0,
            (b.0 - 1) as usize,
        )),
    }
}

/// The cells from the guard's own to the edge of the grid are a span of its
/// row or column.
pub proof fn lemma_traversed_to_edge(size: usize, obstacles: Set<Position>, g: Guard)
    requires
        next_obstacle(obstacles, g) is None,
        in_bounds(size, g.pos),
    ensures
        traversed(size, obstacles, g) == match g.direction {
            Direction::Left => row_span(g.pos.0, 0, g.pos.1),
            Direction::Right => row_span(g.pos.0, g.pos.1, (size - 1) as usize),
            Direction::Up => col_span(g.pos.1, 0, g.pos.0),
            Direction::Down => col_span(g.pos.1, g.pos.0, (size - 1) as usize),
        },
{
    match g.direction {
        Direction::Left => assert(traversed(size, obstacles, g) =~= row_span(g.pos.0, 0, g.pos.1)),
        Direction::Right => assert(traversed(size, obstacles, g) =~= row_span(
            g.pos.0,
            g.pos.1,
            (size - 1) as usize,
        )),
        Direction::Up => assert(traversed(size, obstacles, g) =~= col_span(g.pos.1, 0, g.pos.0)),
        Direction::Down => assert(traversed(size, obstacles, g) =~= col_span(
            g.pos.1,
            g.pos.0,
            (size - 1) as usize,
        )),
    }
}

impl GuardSimulation {
    /// The obstacles as a set of cells.
    pub open spec fn obstacle_set(&self) -> Set<Position> {
        self.obstacles@.to_set()
    }

    /// The guard and every obstacle are on the grid, the index lists the
    /// obstacles, and the record of visited cells is for a grid of the same
    /// side.
    pub open spec fn wf(&self) -> bool {
        &&& in_bounds(self.size, self.guard.pos)
        &&& obstacles_in_bounds(self.size, self.obstacle_set())
        &&& self.index.wf()
        &&& self.index.side() == self.size
        &&& self.index@ == self.obstacle_set()
        &&& self.visited_area.wf()
        &&& self.visited_area.side() == self.size
    }

    /// The guard has neither left the grid nor been found to walk in a loop.
    pub open spec fn running(&self) -> bool {
        !self.out_of_area && !self.in_loop
    }

    /// A patrol that is ready to run on a grid of side `size`, or the
    /// first fault found in what was given.
    pub fn new(size: usize, obstacles: Vec<Position>, guard: Guard) -> (r: Result<
        GuardSimulation,
        GridError,
    >)
        ensures
            match r {
                Ok(sim) => {
                    &&& grid_fault(size, obstacles@, guard) is None
                    &&& sim.wf()
                    &&& sim.running()
                    &&& sim.size == size
                    &&& sim.obstacles == obstacles
                    &&& sim.guard == guard
                    &&& sim.visited_area@ == Set::<Position>::empty()
                    &&& !sim.obstacle_set().contains(guard.pos)
                },
                Err(e) => grid_fault(size, obstacles@, guard) == Some(e),
            },
    {
        if size.checked_mul(size).is_none() {
            return Err(GridError::TooLarge);
        }
        if !(guard.pos.0 < size && guard.pos.1 < size) {
            return Err(GridError::StartOutOfBounds);
        }
        let mut on_start = false;
        let mut i: usize = 0;
        while i < obstacles.len()
            invariant
                i <= obstacles.len(),
                size * size <= usize::MAX,
                in_bounds(size, guard.pos),
                forall|j: int| 0 <= j < i ==> in_bounds(size, #[trigger] obstacles@[j]),
                on_start == obstacles@.subrange(0, i as int).contains(guard.pos),
            decreases obstacles.len() - i,
        {
            let o = obstacles[i];
            if !(o.0 < size && o.1 < size) {
                proof {
                    assert(!in_bounds(size, obstacles@[i as int]));
                }
                return Err(GridError::ObstacleOutOfBounds);
            }
            let ghost before = obstacles@.subrange(0, i as int);
            proof {
                let after = obstacles@.subrange(0, i + 1);
                assert(after =~= before.push(o));
                if before.contains(guard.pos) {
                    let j = choose|j: int| 0 <= j < before.len() && before[j] == guard.pos;
                    assert(after[j] == guard.pos);
                }
                if o == guard.pos {
                    assert(after[i as int] == guard.pos);
                }
                if after.contains(guard.pos) {
                    let j = choose|j: int| 0 <= j < after.len() && after[j] == guard.pos;
                    if j < i {
                        assert(before[j] == guard.pos);
                    }
                }
            }
            if o.0 == guard.pos.0 && o.1 == guard.pos.1 {
                on_start = true;
            }
            i += 1;
        }
        proof {
            assert(obstacles@.subrange(0, i as int) =~= obstacles@);
        }
        if on_start {
            return Err(GridError::StartOnObstacle);
        }
        let index = ObstacleIndex::from_obstacles(size, &obstacles);
        Ok(
            GuardSimulation {
                guard,
                size,
                obstacles,
                index,
                out_of_area: false,
                visited_area: BitSet::new(size),
                in_loop: false,
            },
        )
    }

    /// A patrol over the same grid from the same guard state that only
    /// finds out how the walk ends.
    pub fn into_lightweight(&self) -> (light: LightWeightGuardSimulation)
        requires
            self.wf(),
        ensures
            light.wf(),
            light.running(),
            light.guard == self.guard,
            light.side() == self.size,
            light.obstacle_set() == self.obstacle_set(),
            light.grid.temp() is None,
    {
        proof {
            assert forall|i: int| 0 <= i < self.obstacles@.len() implies in_bounds(
                self.size,
                #[trigger] self.obstacles@[i],
            ) by {
                assert(self.obstacle_set().contains(self.obstacles@[i]));
            }
        }
        LightWeightGuardSimulation::new(
            Grid::from_obstacles(self.size, &self.obstacles),
            self.guard,
        )
    }

    /// The character that shows cell `p`: the guard by the way it faces,
    /// unless it has left; else `#` for an obstacle, `X` for a cell the
    /// guard has passed over, and `.` for any other.
    pub open spec fn cell_char(&self, p: Position) -> char {
        if self.guard.pos == p && !self.out_of_area {
            match self.guard.direction {
                Direction::Up => '^',
                Direction::Left => '<',
                Direction::Right => '>',
                Direction::Down => 'v',
            }
        } else if self.obstacles@.contains(p) {
            '#'
        } else if self.visited_area@.contains(p) {
            'X'
        } else {
            '.'
        }
    }

    /// Whether an obstacle stands on `pos`.
    pub fn obstacle_at(&self, pos: Position) -> (r: bool)
        ensures
            r == self.obstacles@.contains(pos),
    {
        let mut i: usize = 0;
        while i < self.obstacles.len()
            invariant
                i <= self.obstacles.len(),
                forall|j: int| 0 <= j < i ==> self.obstacles@[j] != pos,
            decreases self.obstacles.len() - i,
        {
            let o = self.obstacles[i];
            if o.0 == pos.0 && o.1 == pos.1 {
                proof {
                    assert(self.obstacles@[i as int] == pos);
                }
                return true;
            }
            i += 1;
        }
        false
    }

    /// The grid as rows of characters, one for each cell.
    pub fn render(&self) -> (rows: Vec<Vec<char>>)
        requires
            self.visited_area.wf(),
        ensures
            rows@.len() == self.size,
            forall|r: int| 0 <= r < self.size ==> (#[trigger] rows@[r])@.len() == self.size,
            forall|r: usize, c: usize|
                r < self.size && c < self.size ==> #[trigger] rows@[r as int]@[c as int]
                    == self.cell_char((r, c)),
    {
        let mut rows: Vec<Vec<char>> = Vec::new();
        let mut x: usize = 0;
        while x < self.size
            invariant
                self.visited_area.wf(),
                x <= self.size,
                rows@.len() == x,
                forall|r: int| 0 <= r < x ==> (#[trigger] rows@[r])@.len() == self.size,
                forall|r: usize, c: usize|
                    r < x && c < self.size ==> #[trigger] rows@[r as int]@[c as int]
                        == self.cell_char((r, c)),
            decreases self.size - x,
        {
            let mut row: Vec<char> = Vec::new();
            let mut y: usize = 0;
            while y < self.size
                invariant
                    self.visited_area.wf(),
                    x < self.size,
                    y <= self.size,
                    row@.len() == y,
                    forall|c: usize| c < y ==> #[trigger] row@[c as int] == self.cell_char((x, c)),
                decreases self.size - y,
            {
                let pos = (x, y);
                let shown = if self.guard.pos.0 == x && self.guard.pos.1 == y && !self.out_of_area {
                    match self.guard.direction {
                        Direction::Up => '^',
                        Direction::Left => '<',
                        Direction::Right => '>',
                        Direction::Down => 'v',
                    }
                } else if self.obstacle_at(pos) {
                    '#'
                } else if self.visited_area.contains(&pos) {
                    'X'
                } else {
                    '.'
                };
                row.push(shown);
                y += 1;
            }
            rows.push(row);
            x += 1;
        }
        rows
    }

    /// How far the patrol has come.
    pub fn outcome(&self) -> (o: Outcome)
        ensures
            o == outcome_of(self.out_of_area, self.in_loop),
    {
        outcome_from(self.out_of_area, self.in_loop)
    }

    /// The nearest obstacle strictly ahead of the guard, if there is one.
    pub fn get_next_obstacle(&self) -> (r: Option<Position>)
        requires
            self.wf(),
        ensures
            r == next_obstacle(self.obstacle_set(), self.guard),
            r is Some ==> is_next_obstacle(self.obstacle_set(), self.guard, r->Some_0),
    {
        self.index.next_obstacle(&self.guard)
    }

    /// Walks the guard to the cell before `next_obstacle`, recording the
    /// cells it passes over. The guard keeps its direction.
    pub fn do_move(&mut self, next_obstacle: Position)
        requires
            old(self).wf(),
            is_next_obstacle(old(self).obstacle_set(), old(self).guard, next_obstacle),
        ensures
            final(self).wf(),
            final(self).guard.pos == old(self).guard.before(next_obstacle),
            final(self).guard.direction == old(self).guard.direction,
            final(self).visited_area@ == old(self).visited_area@.union(
                traversed(old(self).size, old(self).obstacle_set(), old(self).guard),
            ),
            final(self).size == old(self).size,
            final(self).obstacles == old(self).obstacles,
            final(self).out_of_area == old(self).out_of_area,
            final(self).in_loop == old(self).in_loop,
    {
        proof {
            lemma_traversed_to_obstacle(self.size, self.obstacle_set(), self.guard, next_obstacle);
            assert(in_bounds(self.size, next_obstacle));
        }
        match self.guard.direction {
            Direction::Left => {
                let x = next_obstacle.0;
                self.visited_area.insert_row_span(x, next_obstacle.1 + 1, self.guard.pos.1);
                self.guard.pos = (x, next_obstacle.1 + 1);
            },
            Direction::Right => {
                let x = next_obstacle.0;
                self.visited_area.insert_row_span(x, self.guard.pos.1, next_obstacle.1 - 1);
                self.guard.pos = (x, next_obstacle.1 - 1);
            },
            Direction::Up => {
                let y = next_obstacle.1;
                self.visited_area.insert_col_span(y, next_obstacle.0 + 1, self.guard.pos.0);
                self.guard.pos = (next_obstacle.0 + 1, y);
            },
            Direction::Down => {
                let y = next_obstacle.1;
                self.visited_area.insert_col_span(y, self.guard.pos.0, next_obstacle.0 - 1);
                self.guard.pos = (next_obstacle.0 - 1, y);
            },
        }
    }

    /// Records the cells from the guard's own to the edge of the grid that
    /// it faces. The guard itself stays where it is.
    pub fn finish_move(&mut self)
        requires
            old(self).wf(),
            next_obstacle(old(self).obstacle_set(), old(self).guard) is None,
        ensures
            final(self).wf(),
            final(self).visited_area@ == old(self).visited_area@.union(
                traversed(old(self).size, old(self).obstacle_set(), old(self).guard),
            ),
            final(self).guard == old(self).guard,
            final(self).size == old(self).size,
            final(self).obstacles == old(self).obstacles,
            final(self).out_of_area == old(self).out_of_area,
            final(self).in_loop == old(self).in_loop,
    {
        proof {
            lemma_traversed_to_edge(self.size, self.obstacle_set(), self.guard);
        }
        match self.guard.direction {
            Direction::Left => {
                let x = self.guard.pos.0;
                self.visited_area.insert_row_span(x, 0, self.guard.pos.1);
            },
            Direction::Right => {
                let x = self.guard.pos.0;
                self.visited_area.insert_row_span(x, self.guard.pos.1, self.size - 1);
            },
            Direction::Up => {
                let y = self.guard.pos.1;
                self.visited_area.insert_col_span(y, 0, self.guard.pos.0);
            },
            Direction::Down => {
                let y = self.guard.pos.1;
                self.visited_area.insert_col_span(y, self.guard.pos.0, self.size - 1);
            },
        }
    }

    /// One turn of the engine. A guard whose state is already in `moves` is
    /// found to loop. Otherwise the state is added to `moves` and the guard
    /// either walks up to the nearest obstacle and turns right, or leaves the
    /// grid; the cells it passes over are recorded either way.
    pub fn step(&mut self, moves: &mut GuardSet)
        requires
            old(self).wf(),
            old(moves).wf(),
            old(moves).side() == old(self).size,
        ensures
            final(self).wf(),
            final(moves).wf(),
            final(moves).side() == old(moves).side(),
            final(self).size == old(self).size,
            final(self).obstacles == old(self).obstacles,
            old(moves)@.contains(old(self).guard) ==> {
                &&& final(self).in_loop
                &&& final(self).out_of_area == old(self).out_of_area
                &&& final(self).guard == old(self).guard
                &&& final(self).visited_area@ == old(self).visited_area@
                &&& final(moves)@ == old(moves)@
            },
            !old(moves)@.contains(old(self).guard) ==> {
                &&& final(self).in_loop == old(self).in_loop
                &&& final(moves)@ == old(moves)@.insert(old(self).guard)
                &&& final(self).visited_area@ == old(self).visited_area@.union(
                    traversed(old(self).size, old(self).obstacle_set(), old(self).guard),
                )
                &&& match advance(old(self).obstacle_set(), old(self).guard) {
                    Some(g) => final(self).guard == g && final(self).out_of_area == old(
                        self,
                    ).out_of_area,
                    None => final(self).guard == old(self).guard && final(self).out_of_area,
                }
            },
    {
        if moves.contains(&self.guard) {
            self.in_loop = true;
            return ;
        }
        moves.insert(&self.guard);
        if let Some(next_obstacle) = self.get_next_obstacle() {
            self.do_move(next_obstacle);
            self.guard.direction.rotate90();
        } else {
            self.finish_move();
            self.out_of_area = true;
        }
    }

    /// Runs the patrol to its end and tells whether the guard walks in a
    /// loop. The guard starts from the state it is in; a patrol that has
    /// already ended is left as it is.
    ///
    /// The run ends after at most `4 * size * size` moves. It ends in a loop
    /// exactly when the guard never leaves the grid, and then the guard is
    /// left in the first state that came up a second time; otherwise the
    /// guard is left where it stood before it walked off. The record of
    /// visited cells gains every cell the guard passes over.
    pub fn run(&mut self) -> (looping: bool)
        requires
            old(self).wf(),
        ensures
            final(self).wf(),
            looping == final(self).in_loop,
            final(self).size == old(self).size,
            final(self).obstacles == old(self).obstacles,
            !old(self).running() ==> {
                &&& final(self).guard == old(self).guard
                &&& final(self).in_loop == old(self).in_loop
                &&& final(self).out_of_area == old(self).out_of_area
                &&& final(self).visited_area@ == old(self).visited_area@
            },
            old(self).running() ==> {
                &&& looping == loops(old(self).obstacle_set(), old(self).guard)
                &&& final(self).out_of_area == !looping
                &&& final(self).visited_area@ == old(self).visited_area@.union(
                    visited_area(old(self).size, old(self).obstacle_set(), old(self).guard),
                )
                &&& exists|k: nat|
                    k <= 4 * (old(self).size * old(self).size) && #[trigger] halts_after(
                        old(self).obstacle_set(),
                        old(self).guard,
                        k,
                        final(self).guard,
                        looping,
                    )
            },
    {
        if self.out_of_area || self.in_loop {
            return self.in_loop;
        }
        let ghost start = self.guard;
        let ghost obs = self.obstacle_set();
        let ghost size = self.size;
        let ghost area = self.visited_area@;
        let ghost mut k: nat = 0;
        let mut moves = GuardSet::new(self.size);
        proof {
            assert(seen_states(obs, start, 0) =~= Set::<Guard>::empty());
            assert(covered(size, obs, start, 0) =~= Set::<Position>::empty());
            assert(area.union(covered(size, obs, start, 0)) =~= area);
        }
        while !(self.out_of_area || self.in_loop)
            invariant
                self.wf(),
                moves.wf(),
                moves.side() == self.size,
                self.size == size,
                self.obstacles == old(self).obstacles,
                obs == self.obstacle_set(),
                start == old(self).guard,
                in_bounds(size, start.pos),
                !(self.out_of_area && self.in_loop),
                fresh_until(obs, start, k),
                k <= 4 * (size * size),
                self.visited_area@ == area.union(covered(size, obs, start, k)),
                self.running() ==> {
                    &&& state_after(obs, start, k) == Some(self.guard)
                    &&& moves@ == seen_states(obs, start, k)
                    &&& moves@.finite()
                    &&& moves@.len() == k
                },
                self.in_loop ==> halts_after(obs, start, k, self.guard, true),
                self.out_of_area ==> halts_after(obs, start, k, self.guard, false),
            decreases 4 * (size * size) - k + (if self.running() { 1int } else { 0int }),
        {
            let ghost before = self.guard;
            let ghost seen = moves@;
            self.step(&mut moves);
            proof {
                if seen.contains(before) {
                    assert(halts_after(obs, start, k, self.guard, true));
                } else {
                    lemma_one_more_move(size, obs, start, k);
                    assert forall|g: Guard| moves@.contains(g) implies in_bounds(size, g.pos) by {
                        moves.lemma_members_in_bounds();
                    }
                    lemma_states_bounded(moves@, size);
                    assert(moves@.len() == k + 1);
                    assert forall|a: nat, b: nat| a < b < k + 1 implies #[trigger] state_after(
                        obs,
                        start,
                        a,
                    ) != #[trigger] state_after(obs, start, b) by {
                        if b == k {
                            if state_after(obs, start, a) == Some(before) {
                                assert(seen_states(obs, start, k).contains(before));
                            }
                        }
                    }
                    assert(area.union(covered(size, obs, start, k)).union(
                        traversed(size, obs, before),
                    ) =~= area.union(covered(size, obs, start, k + 1)));
                    assert(state_after(obs, start, k + 1) == advance(obs, before));
                    k = k + 1;
                }
            }
        }
        proof {
            if self.in_loop {
                let i = choose|i: nat| i < k && #[trigger] state_after(obs, start, i) == Some(self.guard);
                lemma_revisit_loops(obs, start, i, k);
                lemma_covered_when_looping(size, obs, start, i, k);
            } else {
                lemma_covered_when_gone(size, obs, start, k);
                assert(!loops(obs, start));
            }
        }
        self.in_loop
    }
}

} // verus!
