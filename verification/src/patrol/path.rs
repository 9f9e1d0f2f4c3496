use vstd::prelude::*;
use crate::patrol::guard::{Guard, Position, in_bounds};
use crate::patrol::obstacles::{is_next_obstacle, lemma_next_obstacle_cases, next_obstacle};

verus! {

/// The guard's state after one move: it stops just before the nearest
/// obstacle ahead and turns right. `None` when nothing blocks it, so that
/// it walks off the grid.
pub open spec fn advance(obstacles: Set<Position>, g: Guard) -> Option<Guard> {
    match next_obstacle(obstacles, g) {
        Some(b) => Some(Guard { pos: g.before(b), direction: g.direction.rotated() }),
        None => None,
    }
}

/// The cells the guard passes over in its next move, its own cell included:
/// up to the cell before the nearest obstacle, or up to the edge of the grid.
pub open spec fn traversed(size: usize, obstacles: Set<Position>, g: Guard) -> Set<Position> {
    match next_obstacle(obstacles, g) {
        Some(b) => Set::new(|p: Position| g.sees(p) && g.distance(p) < g.distance(b)),
        None => Set::new(|p: Position| g.sees(p) && in_bounds(size, p)),
    }
}

/// The guard's state after `k` moves from `start`; `None` once it has left.
pub open spec fn state_after(obstacles: Set<Position>, start: Guard, k: nat) -> Option<Guard>
    decreases k,
{
    if k == 0 {
        Some(start)
    } else {
        match state_after(obstacles, start, (k - 1) as nat) {
            Some(g) => advance(obstacles, g),
            None => None,
        }
    }
}

/// The guard never leaves the grid: it is still there after any number of
/// moves.
pub open spec fn loops(obstacles: Set<Position>, start: Guard) -> bool {
    forall|k: nat| (#[trigger] state_after(obstacles, start, k)) is Some
}

/// Some state comes up twice along the guard's path.
pub open spec fn revisits(obstacles: Set<Position>, start: Guard) -> bool {
    exists|i: nat, j: nat|
        i < j && (#[trigger] state_after(obstacles, start, i)) is Some && state_after(
            obstacles,
            start,
            i,
        ) == #[trigger] state_after(obstacles, start, j)
}

/// The states the guard is in before its first `k` moves.
pub open spec fn seen_states(obstacles: Set<Position>, start: Guard, k: nat) -> Set<Guard> {
    Set::new(|g: Guard| exists|i: nat| i < k && #[trigger] state_after(obstacles, start, i) == Some(g))
}

/// The cells passed over by the guard's first `k` moves.
pub open spec fn covered(size: usize, obstacles: Set<Position>, start: Guard, k: nat) -> Set<
    Position,
> {
    Set::new(
        |p: Position|
            exists|i: nat|
                i < k && (#[trigger] state_after(obstacles, start, i)) is Some && traversed(
                    size,
                    obstacles,
                    state_after(obstacles, start, i)->Some_0,
                ).contains(p),
    )
}

/// Every cell the guard ever passes over.
pub open spec fn visited_area(size: usize, obstacles: Set<Position>, start: Guard) -> Set<Position> {
    Set::new(
        |p: Position|
            exists|i: nat|
                (#[trigger] state_after(obstacles, start, i)) is Some && traversed(
                    size,
                    obstacles,
                    state_after(obstacles, start, i)->Some_0,
                ).contains(p),
    )
}

/// No state comes up twice among those the guard is in before its first
/// `k` moves.
pub open spec fn fresh_until(obstacles: Set<Position>, start: Guard, k: nat) -> bool {
    forall|a: nat, b: nat|
        a < b < k ==> #[trigger] state_after(obstacles, start, a) != #[trigger] state_after(
            obstacles,
            start,
            b,
        )
}

/// The run from `start` ends after exactly `k` moves with the guard in
/// state `last`: the states before were all different, and then either the
/// guard is in a state it was in before (`looping`), or its last move took
/// it off the grid from `last`.
pub open spec fn halts_after(
    obstacles: Set<Position>,
    start: Guard,
    k: nat,
    last: Guard,
    looping: bool,
) -> bool {
    &&& fresh_until(obstacles, start, k)
    &&& if looping {
        &&& state_after(obstacles, start, k) == Some(last)
        &&& seen_states(obstacles, start, k).contains(last)
    } else {
        &&& k >= 1
        &&& state_after(obstacles, start, (k - 1) as nat) == Some(last)
        &&& state_after(obstacles, start, k) is None
    }
}

/// Whether every obstacle is a cell of the grid of side `size`.
pub open spec fn obstacles_in_bounds(size: usize, obstacles: Set<Position>) -> bool {
    forall|p: Position| obstacles.contains(p) ==> in_bounds(size, p)
}

/// A move keeps the guard on the grid.
pub proof fn lemma_advance_in_bounds(size: usize, obstacles: Set<Position>, g: Guard)
    requires
        in_bounds(size, g.pos),
        obstacles_in_bounds(size, obstacles),
        advance(obstacles, g) is Some,
    ensures
        in_bounds(size, advance(obstacles, g)->Some_0.pos),
{
    lemma_next_obstacle_cases(obstacles, g);
    let b = next_obstacle(obstacles, g)->Some_0;
    assert(is_next_obstacle(obstacles, g, b));
    assert(in_bounds(size, b));
}

/// The guard is on the grid for as long as it has not left.
pub proof fn lemma_state_in_bounds(size: usize, obstacles: Set<Position>, start: Guard, k: nat)
    requires
        in_bounds(size, start.pos),
        obstacles_in_bounds(size, obstacles),
        state_after(obstacles, start, k) is Some,
    ensures
        in_bounds(size, state_after(obstacles, start, k)->Some_0.pos),
    decreases k,
{
    if k > 0 {
        let prev = state_after(obstacles, start, (k - 1) as nat);
        lemma_state_in_bounds(size, obstacles, start, (k - 1) as nat);
        lemma_advance_in_bounds(size, obstacles, prev->Some_0);
    }
}

/// Once the guard has left, it stays away.
pub proof fn lemma_gone_stays_gone(obstacles: Set<Position>, start: Guard, k: nat, m: nat)
    requires
        state_after(obstacles, start, k) is None,
    ensures
        state_after(obstacles, start, k + m) is None,
    decreases m,
{
    if m > 0 {
        lemma_gone_stays_gone(obstacles, start, k, (m - 1) as nat);
    }
}

/// A guard that is on the grid after `k` moves was on it after fewer.
pub proof fn lemma_present_before(obstacles: Set<Position>, start: Guard, k: nat, i: nat)
    requires
        state_after(obstacles, start, k) is Some,
        i <= k,
    ensures
        state_after(obstacles, start, i) is Some,
{
    if state_after(obstacles, start, i) is None {
        lemma_gone_stays_gone(obstacles, start, i, (k - i) as nat);
    }
}

/// Equal states have equal futures.
pub proof fn lemma_same_future(obstacles: Set<Position>, start: Guard, a: nat, b: nat, m: nat)
    requires
        state_after(obstacles, start, a) == state_after(obstacles, start, b),
    ensures
        state_after(obstacles, start, a + m) == state_after(obstacles, start, b + m),
    decreases m,
{
    if m > 0 {
        lemma_same_future(obstacles, start, a, b, (m - 1) as nat);
    }
}

/// After a state has come up again at move `j`, every later state is one
/// that came up before move `j`.
pub proof fn lemma_cycle_covers(obstacles: Set<Position>, start: Guard, i: nat, j: nat, m: nat) -> (e:
    nat)
    requires
        i < j,
        state_after(obstacles, start, i) == state_after(obstacles, start, j),
    ensures
        e < j,
        state_after(obstacles, start, e) == state_after(obstacles, start, m),
    decreases m,
{
    if m < j {
        m
    } else if m == j {
        i
    } else {
        let e = lemma_cycle_covers(obstacles, start, i, j, (m - 1) as nat);
        lemma_same_future(obstacles, start, e, (m - 1) as nat, 1);
        if e + 1 < j {
            (e + 1) as nat
        } else {
            i
        }
    }
}

/// A guard that comes back to a state it was in never leaves the grid.
pub proof fn lemma_revisit_loops(obstacles: Set<Position>, start: Guard, i: nat, j: nat)
    requires
        i < j,
        state_after(obstacles, start, i) is Some,
        state_after(obstacles, start, i) == state_after(obstacles, start, j),
    ensures
        loops(obstacles, start),
{
    assert forall|k: nat| (#[trigger] state_after(obstacles, start, k)) is Some by {
        let e = lemma_cycle_covers(obstacles, start, i, j, k);
        lemma_present_before(obstacles, start, j, e);
    }
}

/// When a state has come up again at move `k`, the cells of the first `k`
/// moves are all the guard ever passes over.
pub proof fn lemma_covered_when_looping(
    size: usize,
    obstacles: Set<Position>,
    start: Guard,
    i: nat,
    k: nat,
)
    requires
        i < k,
        state_after(obstacles, start, i) == state_after(obstacles, start, k),
    ensures
        covered(size, obstacles, start, k) == visited_area(size, obstacles, start),
{
    assert forall|p: Position| visited_area(size, obstacles, start).contains(p) implies covered(
        size,
        obstacles,
        start,
        k,
    ).contains(p) by {
        let m = choose|m: nat|
            (#[trigger] state_after(obstacles, start, m)) is Some && traversed(
                size,
                obstacles,
                state_after(obstacles, start, m)->Some_0,
            ).contains(p);
        let e = lemma_cycle_covers(obstacles, start, i, k, m);
        assert(state_after(obstacles, start, e) is Some);
    }
    assert(covered(size, obstacles, start, k) =~= visited_area(size, obstacles, start));
}

/// When the guard has left by move `k`, the cells of the first `k` moves
/// are all it ever passes over.
pub proof fn lemma_covered_when_gone(size: usize, obstacles: Set<Position>, start: Guard, k: nat)
    requires
        state_after(obstacles, start, k) is None,
    ensures
        covered(size, obstacles, start, k) == visited_area(size, obstacles, start),
{
    assert forall|p: Position| visited_area(size, obstacles, start).contains(p) implies covered(
        size,
        obstacles,
        start,
        k,
    ).contains(p) by {
        let m = choose|m: nat|
            (#[trigger] state_after(obstacles, start, m)) is Some && traversed(
                size,
                obstacles,
                state_after(obstacles, start, m)->Some_0,
            ).contains(p);
        if m >= k {
            lemma_gone_stays_gone(obstacles, start, k, (m - k) as nat);
        }
    }
    assert(covered(size, obstacles, start, k) =~= visited_area(size, obstacles, start));
}

/// One more move adds its state to those seen and its cells to those
/// covered.
pub proof fn lemma_one_more_move(size: usize, obstacles: Set<Position>, start: Guard, k: nat)
    requires
        state_after(obstacles, start, k) is Some,
    ensures
        seen_states(obstacles, start, k + 1) == seen_states(obstacles, start, k).insert(
            state_after(obstacles, start, k)->Some_0,
        ),
        covered(size, obstacles, start, k + 1) == covered(size, obstacles, start, k).union(
            traversed(size, obstacles, state_after(obstacles, start, k)->Some_0),
        ),
{
    let g = state_after(obstacles, start, k)->Some_0;
    assert forall|h: Guard| seen_states(obstacles, start, k + 1).contains(h) implies seen_states(
        obstacles,
        start,
        k,
    ).insert(g).contains(h) by {
        let i = choose|i: nat| i < k + 1 && #[trigger] state_after(obstacles, start, i) == Some(h);
        if i < k {
            assert(seen_states(obstacles, start, k).contains(h));
        }
    }
    assert forall|h: Guard| seen_states(obstacles, start, k).insert(g).contains(h) implies seen_states(
        obstacles,
        start,
        k + 1,
    ).contains(h) by {
        if h == g {
            assert(state_after(obstacles, start, k) == Some(h));
        } else {
            let i = choose|i: nat| i < k && #[trigger] state_after(obstacles, start, i) == Some(h);
            assert(i < k + 1);
        }
    }
    assert(seen_states(obstacles, start, k + 1) =~= seen_states(obstacles, start, k).insert(g));
    let more = covered(size, obstacles, start, k).union(traversed(size, obstacles, g));
    assert forall|p: Position| covered(size, obstacles, start, k + 1).contains(p) implies more.contains(
        p,
    ) by {
        let i = choose|i: nat|
            i < k + 1 && (#[trigger] state_after(obstacles, start, i)) is Some && traversed(
                size,
                obstacles,
                state_after(obstacles, start, i)->Some_0,
            ).contains(p);
        if i < k {
            assert(covered(size, obstacles, start, k).contains(p));
        }
    }
    assert forall|p: Position| more.contains(p) implies covered(size, obstacles, start, k + 1).contains(
        p,
    ) by {
        if covered(size, obstacles, start, k).contains(p) {
            let i = choose|i: nat|
                i < k && (#[trigger] state_after(obstacles, start, i)) is Some && traversed(
                    size,
                    obstacles,
                    state_after(obstacles, start, i)->Some_0,
                ).contains(p);
            assert(i < k + 1);
        } else {
            assert(state_after(obstacles, start, k) is Some);
        }
    }
    assert(covered(size, obstacles, start, k + 1) =~= more);
}

} // verus!
