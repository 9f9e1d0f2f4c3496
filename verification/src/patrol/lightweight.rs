use vstd::prelude::*;
use crate::patrol::counting::lemma_states_bounded;
use crate::patrol::direction::Direction;
use crate::patrol::grid::{Grid, with_temp, without_temp};
use crate::patrol::guard::{Guard, Position, in_bounds};
use crate::patrol::guard_set::GuardSet;
use crate::patrol::obstacles::{is_next_obstacle, next_obstacle};
use crate::patrol::simulation::{Outcome, outcome_from, outcome_of};
use crate::patrol::path::{
    advance,
    fresh_until,
    halts_after,
    lemma_one_more_move,
    lemma_revisit_loops,
    loops,
    seen_states,
    state_after,
};

verus! {

/// A patrol that only finds out how the walk ends, without recording the
/// cells on the way.
#[derive(Debug)]
pub struct LightWeightGuardSimulation {
    pub guard: Guard,
    pub grid: Grid,
    pub out_of_area: bool,
    pub in_loop: bool,
}

impl LightWeightGuardSimulation {
    /// The obstacles as a set of cells.
    pub open spec fn obstacle_set(&self) -> Set<Position> {
        self.grid@
    }

    /// The side of the grid.
    pub open spec fn side(&self) -> usize {
        self.grid.side()
    }

    /// The grid is in order and the guard is on it.
    pub open spec fn wf(&self) -> bool {
        &&& self.grid.wf()
        &&& in_bounds(self.grid.side(), self.guard.pos)
    }

    /// The guard has neither left the grid nor been found to walk in a loop.
    pub open spec fn running(&self) -> bool {
        !self.out_of_area && !self.in_loop
    }

    /// A patrol of `guard` over `grid` that is ready to run.
    pub fn new(grid: Grid, guard: Guard) -> (light: Self)
        ensures
            light.grid == grid,
            light.guard == guard,
            light.running(),
    {
        LightWeightGuardSimulation { guard, grid, out_of_area: false, in_loop: false }
    }

    /// How far the patrol has come.
    pub fn outcome(&self) -> (o: Outcome)
        ensures
            o == outcome_of(self.out_of_area, self.in_loop),
    {
        outcome_from(self.out_of_area, self.in_loop)
    }

    /// Whether an obstacle stands on `pos`.
    pub fn obstacle_at(&self, pos: Position) -> (r: bool)
        requires
            self.grid.wf(),
        ensures
            r == self.obstacle_set().contains(pos),
    {
        self.grid.obstacle_at(pos)
    }

    /// Whether `pos` is a cell of the grid.
    pub fn in_bounds(&self, pos: Position) -> (r: bool)
        ensures
            r == in_bounds(self.side(), pos),
    {
        self.grid.in_bounds(pos)
    }

    /// Puts one more obstacle on `pos`, to be taken away again with
    /// `remove_temp_obstacle`. Where an obstacle stands on `pos` already,
    /// nothing is put.
    pub fn insert_temp_obstacle(&mut self, pos: Position)
        requires
            old(self).grid.wf(),
            old(self).grid.temp() is None,
            in_bounds(old(self).side(), pos),
        ensures
            final(self).grid.wf(),
            final(self).side() == old(self).side(),
            (final(self).obstacle_set(), final(self).grid.temp()) == with_temp(
                old(self).obstacle_set(),
                pos,
            ),
            final(self).obstacle_set() == old(self).obstacle_set().insert(pos),
            final(self).guard == old(self).guard,
            final(self).out_of_area == old(self).out_of_area,
            final(self).in_loop == old(self).in_loop,
    {
        self.grid.insert_temp_obstacle(pos);
    }

    /// Takes away the obstacle that was put on `pos` for a while. Where
    /// none was put there, nothing is taken.
    pub fn remove_temp_obstacle(&mut self, pos: Position)
        requires
            old(self).grid.wf(),
        ensures
            final(self).grid.wf(),
            final(self).side() == old(self).side(),
            (final(self).obstacle_set(), final(self).grid.temp()) == without_temp(
                old(self).obstacle_set(),
                old(self).grid.temp(),
                pos,
            ),
            final(self).guard == old(self).guard,
            final(self).out_of_area == old(self).out_of_area,
            final(self).in_loop == old(self).in_loop,
    {
        self.grid.remove_temp_obstacle(pos);
    }

    /// The nearest obstacle strictly ahead of the guard, if there is one.
    pub fn get_next_obstacle(&self) -> (r: Option<Position>)
        requires
            self.wf(),
        ensures
            r == next_obstacle(self.obstacle_set(), self.guard),
            r is Some ==> is_next_obstacle(self.obstacle_set(), self.guard, r->Some_0),
    {
        self.grid.next_obstacle(&self.guard)
    }

    /// Puts the guard on the cell before `next_obstacle`. The guard keeps
    /// its direction.
    pub fn do_move(&mut self, next_obstacle: Position)
        requires
            old(self).wf(),
            is_next_obstacle(old(self).obstacle_set(), old(self).guard, next_obstacle),
        ensures
            final(self).wf(),
            final(self).guard.pos == old(self).guard.before(next_obstacle),
            final(self).guard.direction == old(self).guard.direction,
            final(self).grid == old(self).grid,
            final(self).out_of_area == old(self).out_of_area,
            final(self).in_loop == old(self).in_loop,
    {
        proof {
            self.grid.lemma_obstacles_in_bounds();
            assert(in_bounds(self.side(), next_obstacle));
        }
        match self.guard.direction {
            Direction::Left => {
                let x = next_obstacle.0;
                self.guard.pos = (x, next_obstacle.1 + 1);
            },
            Direction::Right => {
                let x = next_obstacle.0;
                self.guard.pos = (x, next_obstacle.1 - 1);
            },
            Direction::Up => {
                let y = next_obstacle.1;
                self.guard.pos = (next_obstacle.0 + 1, y);
            },
            Direction::Down => {
                let y = next_obstacle.1;
                self.guard.pos = (next_obstacle.0 - 1, y);
            },
        }
    }

    /// One turn of the engine. A guard whose state is already in `moves` is
    /// found to loop. Otherwise the state is added to `moves` and the guard
    /// either walks up to the nearest obstacle and turns right, or leaves the
    /// grid.
    pub fn step(&mut self, moves: &mut GuardSet)
        requires
            old(self).wf(),
            old(moves).wf(),
            old(moves).side() == old(self).side(),
        ensures
            final(self).wf(),
            final(moves).wf(),
            final(moves).side() == old(moves).side(),
            final(self).grid == old(self).grid,
            old(moves)@.contains(old(self).guard) ==> {
                &&& final(self).in_loop
                &&& final(self).out_of_area == old(self).out_of_area
                &&& final(self).guard == old(self).guard
                &&& final(moves)@ == old(moves)@
            },
            !old(moves)@.contains(old(self).guard) ==> {
                &&& final(self).in_loop == old(self).in_loop
                &&& final(moves)@ == old(moves)@.insert(old(self).guard)
                &&& match advance(old(self).obstacle_set(), old(self).guard) {
                    Some(g) => final(self).guard == g && final(self).out_of_area == old(
                        self,
                    ).out_of_area,
                    None => final(self).guard == old(self).guard && final(self).out_of_area,
                }
            },
    {
        if moves.contains(&self.guard) {
            self.in_loop = true;
            return ;
        }
        moves.insert(&self.guard);
        if let Some(next_obstacle) = self.get_next_obstacle() {
            self.do_move(next_obstacle);
            self.guard.direction.rotate90();
        } else {
            self.out_of_area = true;
        }
    }

    /// Runs the patrol to its end and tells whether the guard walks in a
    /// loop. The guard starts from the state it is in; a patrol that has
    /// already ended is left as it is.
    ///
    /// The run ends after at most `4 * size * size` moves. It ends in a loop
    /// exactly when the guard never leaves the grid, and then the guard is
    /// left in the first state that came up a second time; otherwise the
    /// guard is left where it stood before it walked off.
    pub fn run(&mut self) -> (looping: bool)
        requires
            old(self).wf(),
        ensures
            final(self).wf(),
            looping == final(self).in_loop,
            final(self).grid == old(self).grid,
            !old(self).running() ==> {
                &&& final(self).guard == old(self).guard
                &&& final(self).in_loop == old(self).in_loop
                &&& final(self).out_of_area == old(self).out_of_area
            },
            old(self).running() ==> {
                &&& looping == loops(old(self).obstacle_set(), old(self).guard)
                &&& final(self).out_of_area == !looping
                &&& exists|k: nat|
                    k <= 4 * (old(self).side() * old(self).side()) && #[trigger] halts_after(
                        old(self).obstacle_set(),
                        old(self).guard,
                        k,
                        final(self).guard,
                        looping,
                    )
            },
    {
        if self.out_of_area || self.in_loop {
            return self.in_loop;
        }
        let ghost start = self.guard;
        let ghost obs = self.obstacle_set();
        let ghost size = self.side();
        let ghost mut k: nat = 0;
        let mut moves = GuardSet::new(self.grid.size());
        proof {
            assert(seen_states(obs, start, 0) =~= Set::<Guard>::empty());
        }
        while !(self.out_of_area || self.in_loop)
            invariant
                self.wf(),
                moves.wf(),
                moves.side() == self.side(),
                self.side() == size,
                self.grid == old(self).grid,
                obs == self.obstacle_set(),
                start == old(self).guard,
                in_bounds(size, start.pos),
                !(self.out_of_area && self.in_loop),
                fresh_until(obs, start, k),
                k <= 4 * (size * size),
                self.running() ==> {
                    &&& state_after(obs, start, k) == Some(self.guard)
                    &&& moves@ == seen_states(obs, start, k)
                    &&& moves@.finite()
                    &&& moves@.len() == k
                },
                self.in_loop ==> halts_after(obs, start, k, self.guard, true),
                self.out_of_area ==> halts_after(obs, start, k, self.guard, false),
            decreases 4 * (size * size) - k + (if self.running() { 1int } else { 0int }),
        {
            let ghost before = self.guard;
            let ghost seen = moves@;
            self.step(&mut moves);
            proof {
                if seen.contains(before) {
                    assert(halts_after(obs, start, k, self.guard, true));
                } else {
                    lemma_one_more_move(size, obs, start, k);
                    assert forall|g: Guard| moves@.contains(g) implies in_bounds(size, g.pos) by {
                        moves.lemma_members_in_bounds();
                    }
                    lemma_states_bounded(moves@, size);
                    assert(moves@.len() == k + 1);
                    assert forall|a: nat, b: nat| a < b < k + 1 implies #[trigger] state_after(
                        obs,
                        start,
                        a,
                    ) != #[trigger] state_after(obs, start, b) by {
                        if b == k {
                            if state_after(obs, start, a) == Some(before) {
                                assert(seen_states(obs, start, k).contains(before));
                            }
                        }
                    }
                    assert(state_after(obs, start, k + 1) == advance(obs, before));
                    k = k + 1;
                }
            }
        }
        proof {
            if self.in_loop {
                let i = choose|i: nat| i < k && #[trigger] state_after(obs, start, i) == Some(self.guard);
                lemma_revisit_loops(obs, start, i, k);
            } else {
                assert(!loops(obs, start));
            }
        }
        self.in_loop
    }

    /// Puts the guard back on `start_guard` and makes the patrol ready to
    /// run again.
    pub fn reset(&mut self, start_guard: Guard)
        ensures
            final(self).guard == start_guard,
            !final(self).in_loop,
            !final(self).out_of_area,
            final(self).grid == old(self).grid,
    {
        self.guard = start_guard;
        self.in_loop = false;
        self.out_of_area = false;
    }
}

} // verus!
