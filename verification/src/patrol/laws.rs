use vstd::prelude::*;
use crate::patrol::counting::lemma_states_bounded;
use crate::patrol::guard::{Guard, Position, in_bounds};
use crate::patrol::search::loop_positions;
use crate::patrol::obstacles::{
    is_next_obstacle,
    lemma_next_obstacle_cases,
    lemma_next_obstacle_is,
    next_obstacle,
};
use crate::patrol::path::{
    fresh_until,
    halts_after,
    lemma_one_more_move,
    lemma_present_before,
    lemma_revisit_loops,
    lemma_state_in_bounds,
    loops,
    obstacles_in_bounds,
    revisits,
    seen_states,
    state_after,
    traversed,
    visited_area,
};

verus! {

/// As long as no state has come up twice, the guard has been in as many
/// states as it has made moves.
pub proof fn lemma_fresh_states_counted(
    size: usize,
    obstacles: Set<Position>,
    start: Guard,
    k: nat,
)
    requires
        in_bounds(size, start.pos),
        obstacles_in_bounds(size, obstacles),
        fresh_until(obstacles, start, k),
        forall|i: nat| i < k ==> (#[trigger] state_after(obstacles, start, i)) is Some,
    ensures
        seen_states(obstacles, start, k).finite(),
        seen_states(obstacles, start, k).len() == k,
        k <= 4 * (size * size),
    decreases k,
{
    let seen = seen_states(obstacles, start, k);
    if k == 0 {
        assert(seen =~= Set::<Guard>::empty());
    } else {
        let j = (k - 1) as nat;
        lemma_fresh_states_counted(size, obstacles, start, j);
        assert(state_after(obstacles, start, j) is Some);
        let g = state_after(obstacles, start, j)->Some_0;
        lemma_one_more_move(size, obstacles, start, j);
        if seen_states(obstacles, start, j).contains(g) {
            let i = choose|i: nat| i < j && #[trigger] state_after(obstacles, start, i) == Some(g);
            assert(state_after(obstacles, start, i) != state_after(obstacles, start, j));
        }
        assert forall|h: Guard| seen.contains(h) implies in_bounds(size, h.pos) by {
            let i = choose|i: nat| i < k && #[trigger] state_after(obstacles, start, i) == Some(h);
            lemma_state_in_bounds(size, obstacles, start, i);
        }
        lemma_states_bounded(seen, size);
    }
}

/// The patrol ends in a loop exactly when some state of the guard comes up
/// twice, and it ends off the grid exactly when none does.
pub proof fn lemma_loops_iff_revisits(size: usize, obstacles: Set<Position>, start: Guard)
    requires
        in_bounds(size, start.pos),
        obstacles_in_bounds(size, obstacles),
    ensures
        loops(obstacles, start) <==> revisits(obstacles, start),
        !loops(obstacles, start) <==> exists|k: nat|
            (#[trigger] state_after(obstacles, start, k)) is None,
{
    if revisits(obstacles, start) {
        let (i, j) = choose|i: nat, j: nat|
            i < j && (#[trigger] state_after(obstacles, start, i)) is Some && state_after(
                obstacles,
                start,
                i,
            ) == #[trigger] state_after(obstacles, start, j);
        lemma_revisit_loops(obstacles, start, i, j);
    }
    if loops(obstacles, start) && !revisits(obstacles, start) {
        let k = (4 * (size * size) + 1) as nat;
        assert forall|a: nat, b: nat| a < b < k implies #[trigger] state_after(obstacles, start, a)
            != #[trigger] state_after(obstacles, start, b) by {
            assert(state_after(obstacles, start, a) is Some);
        }
        lemma_fresh_states_counted(size, obstacles, start, k);
    }
}

/// A patrol has one end only: the number of moves, the guard's last state
/// and the kind of end are fixed by the grid and the guard's start.
pub proof fn lemma_end_is_determined(
    obstacles: Set<Position>,
    start: Guard,
    k1: nat,
    last1: Guard,
    looping1: bool,
    k2: nat,
    last2: Guard,
    looping2: bool,
)
    requires
        halts_after(obstacles, start, k1, last1, looping1),
        halts_after(obstacles, start, k2, last2, looping2),
    ensures
        k1 == k2,
        last1 == last2,
        looping1 == looping2,
{
    lemma_halts_no_later(obstacles, start, k1, last1, looping1, k2, last2, looping2);
    lemma_halts_no_later(obstacles, start, k2, last2, looping2, k1, last1, looping1);
}

/// Of two ends of one patrol, neither comes after fewer moves than the other.
proof fn lemma_halts_no_later(
    obstacles: Set<Position>,
    start: Guard,
    k1: nat,
    last1: Guard,
    looping1: bool,
    k2: nat,
    last2: Guard,
    looping2: bool,
)
    requires
        halts_after(obstacles, start, k1, last1, looping1),
        halts_after(obstacles, start, k2, last2, looping2),
    ensures
        k2 <= k1,
{
    if k1 < k2 {
        if looping1 {
            let i = choose|i: nat|
                i < k1 && #[trigger] state_after(obstacles, start, i) == Some(last1);
            assert(state_after(obstacles, start, i) != state_after(obstacles, start, k1));
        } else {
            if looping2 {
                lemma_present_before(obstacles, start, k2, k1);
            } else {
                lemma_present_before(obstacles, start, (k2 - 1) as nat, k1);
            }
        }
    }
}

/// Patrols over the same obstacles from the same start end alike and pass
/// over the same cells, however the obstacles are listed.
pub proof fn lemma_run_is_determined(
    size: usize,
    listed: Seq<Position>,
    relisted: Seq<Position>,
    start: Guard,
)
    requires
        listed.to_set() == relisted.to_set(),
    ensures
        loops(listed.to_set(), start) == loops(relisted.to_set(), start),
        visited_area(size, listed.to_set(), start) == visited_area(size, relisted.to_set(), start),
        forall|k: nat|
            state_after(listed.to_set(), start, k) == state_after(relisted.to_set(), start, k),
{
}

/// An obstacle put on a cell of the grid that the guard never passes over
/// changes nothing: the guard is in the same state after every move, passes
/// over the same cells, and ends the same way.
pub proof fn lemma_unvisited_obstacle_is_inert(
    size: usize,
    obstacles: Set<Position>,
    start: Guard,
    p: Position,
)
    requires
        in_bounds(size, p),
        !visited_area(size, obstacles, start).contains(p),
    ensures
        forall|k: nat|
            state_after(obstacles.insert(p), start, k) == state_after(obstacles, start, k),
        loops(obstacles.insert(p), start) == loops(obstacles, start),
        visited_area(size, obstacles.insert(p), start) == visited_area(size, obstacles, start),
{
    let more = obstacles.insert(p);
    assert forall|k: nat| state_after(more, start, k) == state_after(obstacles, start, k) by {
        lemma_same_states(size, obstacles, start, p, k);
    }
    assert forall|q: Position| visited_area(size, more, start).contains(q) implies visited_area(
        size,
        obstacles,
        start,
    ).contains(q) by {
        let i = choose|i: nat|
            (#[trigger] state_after(more, start, i)) is Some && traversed(
                size,
                more,
                state_after(more, start, i)->Some_0,
            ).contains(q);
        lemma_same_states(size, obstacles, start, p, i);
        lemma_same_move(size, obstacles, start, p, i);
        assert(state_after(obstacles, start, i) is Some);
    }
    assert forall|q: Position| visited_area(size, obstacles, start).contains(q) implies visited_area(
        size,
        more,
        start,
    ).contains(q) by {
        let i = choose|i: nat|
            (#[trigger] state_after(obstacles, start, i)) is Some && traversed(
                size,
                obstacles,
                state_after(obstacles, start, i)->Some_0,
            ).contains(q);
        lemma_same_states(size, obstacles, start, p, i);
        lemma_same_move(size, obstacles, start, p, i);
        assert(state_after(more, start, i) is Some);
    }
    assert(visited_area(size, more, start) =~= visited_area(size, obstacles, start));
    if loops(obstacles, start) {
        assert forall|k: nat| (#[trigger] state_after(more, start, k)) is Some by {
            assert(state_after(obstacles, start, k) is Some);
        }
    }
    if loops(more, start) {
        assert forall|k: nat| (#[trigger] state_after(obstacles, start, k)) is Some by {
            assert(state_after(more, start, k) is Some);
        }
    }
}

/// With an obstacle on a cell that the guard never passes over, the move
/// from its state after `k` moves meets the same obstacle as without.
proof fn lemma_same_move(size: usize, obstacles: Set<Position>, start: Guard, p: Position, k: nat)
    requires
        in_bounds(size, p),
        !visited_area(size, obstacles, start).contains(p),
        state_after(obstacles, start, k) is Some,
    ensures
        next_obstacle(obstacles.insert(p), state_after(obstacles, start, k)->Some_0)
            == next_obstacle(obstacles, state_after(obstacles, start, k)->Some_0),
        traversed(size, obstacles.insert(p), state_after(obstacles, start, k)->Some_0)
            == traversed(size, obstacles, state_after(obstacles, start, k)->Some_0),
{
    let more = obstacles.insert(p);
    let g = state_after(obstacles, start, k)->Some_0;
    assert(!traversed(size, obstacles, g).contains(p));
    lemma_next_obstacle_cases(obstacles, g);
    lemma_next_obstacle_cases(more, g);
    match next_obstacle(obstacles, g) {
        Some(b) => {
            assert(is_next_obstacle(more, g, b));
            lemma_next_obstacle_is(more, g, b);
        },
        None => {
            if next_obstacle(more, g) is Some {
                let q = choose|q: Position| more.contains(q) && g.ahead(q);
                if q != p {
                    assert(obstacles.contains(q));
                }
            }
        },
    }
}

/// With an obstacle on a cell that the guard never passes over, the guard
/// is in the same state after `k` moves as without.
proof fn lemma_same_states(size: usize, obstacles: Set<Position>, start: Guard, p: Position, k: nat)
    requires
        in_bounds(size, p),
        !visited_area(size, obstacles, start).contains(p),
    ensures
        state_after(obstacles.insert(p), start, k) == state_after(obstacles, start, k),
    decreases k,
{
    if k > 0 {
        let j = (k - 1) as nat;
        lemma_same_states(size, obstacles, start, p, j);
        if state_after(obstacles, start, j) is Some {
            lemma_same_move(size, obstacles, start, p, j);
        }
    }
}

/// Every cell the guard passes over is a cell of the grid.
pub proof fn lemma_visited_in_bounds(size: usize, obstacles: Set<Position>, start: Guard)
    requires
        in_bounds(size, start.pos),
        obstacles_in_bounds(size, obstacles),
    ensures
        forall|p: Position| visited_area(size, obstacles, start).contains(p) ==> in_bounds(size, p),
{
    assert forall|p: Position| visited_area(size, obstacles, start).contains(p) implies in_bounds(
        size,
        p,
    ) by {
        let i = choose|i: nat|
            (#[trigger] state_after(obstacles, start, i)) is Some && traversed(
                size,
                obstacles,
                state_after(obstacles, start, i)->Some_0,
            ).contains(p);
        let g = state_after(obstacles, start, i)->Some_0;
        lemma_state_in_bounds(size, obstacles, start, i);
        lemma_next_obstacle_cases(obstacles, g);
        match next_obstacle(obstacles, g) {
            Some(b) => {
                assert(is_next_obstacle(obstacles, g, b));
                assert(in_bounds(size, b));
            },
            None => {},
        }
    }
}

/// Where the guard leaves the grid, the cells on its way are the only ones
/// on which one more obstacle can make it walk in a loop: to try those is
/// to try every cell of the grid.
pub proof fn lemma_candidates_suffice(size: usize, obstacles: Set<Position>, start: Guard)
    requires
        in_bounds(size, start.pos),
        obstacles_in_bounds(size, obstacles),
        !loops(obstacles, start),
    ensures
        loop_positions(visited_area(size, obstacles, start), obstacles, start) == loop_positions(
            Set::new(|p: Position| in_bounds(size, p)),
            obstacles,
            start,
        ),
{
    let tried = loop_positions(visited_area(size, obstacles, start), obstacles, start);
    let all = loop_positions(Set::new(|p: Position| in_bounds(size, p)), obstacles, start);
    lemma_visited_in_bounds(size, obstacles, start);
    assert forall|p: Position| all.contains(p) implies tried.contains(p) by {
        if !visited_area(size, obstacles, start).contains(p) {
            lemma_unvisited_obstacle_is_inert(size, obstacles, start, p);
        }
    }
    assert(tried =~= all);
}

} // verus!
