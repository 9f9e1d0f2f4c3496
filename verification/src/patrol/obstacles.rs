use vstd::prelude::*;
use crate::patrol::direction::Direction;
use crate::patrol::guard::{Guard, Position};

verus! {

/// Whether some obstacle lies strictly ahead of the guard in its line.
pub open spec fn blocked(obstacles: Set<Position>, g: Guard) -> bool {
    exists|q: Position| obstacles.contains(q) && g.ahead(q)
}

/// Whether `b` is the obstacle ahead of the guard that it reaches first.
pub open spec fn is_next_obstacle(obstacles: Set<Position>, g: Guard, b: Position) -> bool {
    &&& obstacles.contains(b)
    &&& g.ahead(b)
    &&& forall|q: Position| obstacles.contains(q) && g.ahead(q) ==> g.distance(b) <= g.distance(q)
}

/// The nearest obstacle strictly ahead of the guard, if there is one.
pub open spec fn next_obstacle(obstacles: Set<Position>, g: Guard) -> Option<Position> {
    if exists|b: Position| is_next_obstacle(obstacles, g, b) {
        Some(choose|b: Position| is_next_obstacle(obstacles, g, b))
    } else {
        None
    }
}

/// Two cells ahead of the guard at the same distance are the same cell.
pub proof fn lemma_ahead_distance_unique(g: Guard, a: Position, b: Position)
    requires
        g.ahead(a),
        g.ahead(b),
        g.distance(a) == g.distance(b),
    ensures
        a == b,
{
}

/// At most one obstacle is the nearest one.
pub proof fn lemma_next_obstacle_unique(obstacles: Set<Position>, g: Guard, a: Position, b: Position)
    requires
        is_next_obstacle(obstacles, g, a),
        is_next_obstacle(obstacles, g, b),
    ensures
        a == b,
{
    lemma_ahead_distance_unique(g, a, b);
}

/// An obstacle that is nearest is what `next_obstacle` names.
pub proof fn lemma_next_obstacle_is(obstacles: Set<Position>, g: Guard, b: Position)
    requires
        is_next_obstacle(obstacles, g, b),
    ensures
        next_obstacle(obstacles, g) == Some(b),
{
    let c = choose|c: Position| is_next_obstacle(obstacles, g, c);
    lemma_next_obstacle_unique(obstacles, g, b, c);
}

/// Among the obstacles ahead of the guard, one is nearest.
pub proof fn lemma_blocked_has_next(obstacles: Set<Position>, g: Guard, q: Position)
    requires
        obstacles.contains(q),
        g.ahead(q),
    ensures
        next_obstacle(obstacles, g) is Some,
    decreases g.distance(q),
{
    if is_next_obstacle(obstacles, g, q) {
        lemma_next_obstacle_is(obstacles, g, q);
    } else {
        let closer = choose|c: Position|
            obstacles.contains(c) && g.ahead(c) && g.distance(q) > g.distance(c);
        lemma_blocked_has_next(obstacles, g, closer);
    }
}

/// `next_obstacle` is `Some` exactly when the guard is blocked, and then
/// names the nearest obstacle; otherwise nothing stands ahead.
pub proof fn lemma_next_obstacle_cases(obstacles: Set<Position>, g: Guard)
    ensures
        next_obstacle(obstacles, g) is Some <==> blocked(obstacles, g),
        next_obstacle(obstacles, g) is Some ==> is_next_obstacle(
            obstacles,
            g,
            next_obstacle(obstacles, g)->Some_0,
        ),
{
    if blocked(obstacles, g) {
        let q = choose|q: Position| obstacles.contains(q) && g.ahead(q);
        lemma_blocked_has_next(obstacles, g, q);
    }
}

/// Whether `cand` is ahead of the guard and nearer than the best so far.
fn improves(guard: &Guard, best: &Option<Position>, cand: Position) -> (r: bool)
    requires
        best is Some ==> guard.ahead(best->Some_0),
    ensures
        r == (guard.ahead(cand) && (best is Some ==> guard.distance(cand) < guard.distance(
            best->Some_0,
        ))),
{
    let ahead = match guard.direction {
        Direction::Left => cand.0 == guard.pos.0 && cand.1 < guard.pos.1,
        Direction::Right => cand.0 == guard.pos.0 && cand.1 > guard.pos.1,
        Direction::Up => cand.1 == guard.pos.1 && cand.0 < guard.pos.0,
        Direction::Down => cand.1 == guard.pos.1 && cand.0 > guard.pos.0,
    };
    if !ahead {
        return false;
    }
    match best {
        None => true,
        Some(b) => match guard.direction {
            Direction::Left => cand.1 > b.1,
            Direction::Right => cand.1 < b.1,
            Direction::Up => cand.0 > b.0,
            Direction::Down => cand.0 < b.0,
        },
    }
}

/// Finds the nearest obstacle strictly ahead of the guard, in its row when
/// it faces left or right and in its column when it faces up or down.
pub fn get_next_obstacle(guard: &Guard, obstacles: &Vec<Position>) -> (r: Option<Position>)
    ensures
        r == next_obstacle(obstacles@.to_set(), *guard),
        r is Some <==> blocked(obstacles@.to_set(), *guard),
        r is Some ==> is_next_obstacle(obstacles@.to_set(), *guard, r->Some_0),
{
    let mut best: Option<Position> = None;
    let mut i: usize = 0;
    while i < obstacles.len()
        invariant
            i <= obstacles.len(),
            best is Some ==> guard.ahead(best->Some_0) && obstacles@.contains(best->Some_0),
            forall|j: int|
                0 <= j < i && guard.ahead(#[trigger] obstacles@[j]) ==> best is Some
                    && guard.distance(best->Some_0) <= guard.distance(obstacles@[j]),
        decreases obstacles.len() - i,
    {
        let cand = obstacles[i];
        if improves(guard, &best, cand) {
            best = Some(cand);
        }
        i += 1;
    }
    proof {
        let set = obstacles@.to_set();
        lemma_next_obstacle_cases(set, *guard);
        match best {
            Some(b) => {
                assert forall|q: Position| set.contains(q) && guard.ahead(q) implies guard.distance(
                    b,
                ) <= guard.distance(q) by {
                    let j = choose|j: int| 0 <= j < obstacles@.len() && obstacles@[j] == q;
                    assert(guard.ahead(obstacles@[j]));
                }
                lemma_next_obstacle_is(set, *guard, b);
            },
            None => {
                assert forall|q: Position| set.contains(q) implies !guard.ahead(q) by {
                    let j = choose|j: int| 0 <= j < obstacles@.len() && obstacles@[j] == q;
                    if guard.ahead(q) {
                        assert(guard.ahead(obstacles@[j]));
                    }
                }
            },
        }
    }
    best
}

} // verus!
