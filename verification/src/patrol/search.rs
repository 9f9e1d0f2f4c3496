use vstd::prelude::*;
use crate::patrol::bitset::BitSet;
use crate::patrol::guard::{Guard, Position, in_bounds};
use crate::patrol::grid::lemma_temp_obstacle_leaves_no_trace;
use crate::patrol::lightweight::LightWeightGuardSimulation;
use crate::patrol::path::{loops, visited_area};
use crate::patrol::simulation::GuardSimulation;

verus! {

/// The cells among `candidates`, other than the guard's own, on which one
/// more obstacle makes the guard walk in a loop.
pub open spec fn loop_positions(
    candidates: Set<Position>,
    obstacles: Set<Position>,
    start: Guard,
) -> Set<Position> {
    Set::new(
        |p: Position|
            candidates.contains(p) && p != start.pos && loops(obstacles.insert(p), start),
    )
}

/// The cells a patrol has recorded once it has been run: those it held
/// before, and for a patrol that was still to run, those the guard passes
/// over.
pub open spec fn area_after_run(sim: GuardSimulation) -> Set<Position> {
    if sim.running() {
        sim.visited_area@.union(visited_area(sim.size, sim.obstacle_set(), sim.guard))
    } else {
        sim.visited_area@
    }
}

/// The cells of `area` on which an obstacle is tried: all but `start`, in
/// reading order.
pub fn candidates(area: &BitSet, start: Position) -> (cells: Vec<Position>)
    requires
        area.wf(),
    ensures
        cells@.to_set() == area@.remove(start),
        cells@.no_duplicates(),
        cells@.len() == area@.remove(start).len(),
        area@.contains(start) ==> cells@.len() == area@.len() - 1,
{
    let all = area.to_vec();
    let mut cells: Vec<Position> = Vec::new();
    let mut i: usize = 0;
    while i < all.len()
        invariant
            i <= all.len(),
            all@.no_duplicates(),
            cells@.no_duplicates(),
            forall|p: Position|
                cells@.contains(p) <==> all@.subrange(0, i as int).contains(p) && p != start,
        decreases all.len() - i,
    {
        let cell = all[i];
        let ghost before = all@.subrange(0, i as int);
        let ghost after = all@.subrange(0, i + 1);
        let ghost held = cells@;
        proof {
            assert(after =~= before.push(cell));
            assert forall|p: Position| after.contains(p) <==> before.contains(p) || p == cell by {
                if before.contains(p) {
                    let j = choose|j: int| 0 <= j < before.len() && before[j] == p;
                    assert(after[j] == p);
                }
                if p == cell {
                    assert(after[i as int] == p);
                }
                if after.contains(p) {
                    let j = choose|j: int| 0 <= j < after.len() && after[j] == p;
                    if j < i {
                        assert(before[j] == p);
                    }
                }
            }
            if before.contains(cell) {
                let j = choose|j: int| 0 <= j < before.len() && before[j] == cell;
                assert(all@[j] == all@[i as int]);
            }
        }
        if !(cell.0 == start.0 && cell.1 == start.1) {
            cells.push(cell);
            proof {
                assert(cells@ == held.push(cell));
                assert forall|p: Position| cells@.contains(p) <==> held.contains(p) || p == cell by {
                    if held.contains(p) {
                        let j = choose|j: int| 0 <= j < held.len() && held[j] == p;
                        assert(cells@[j] == p);
                    }
                    if p == cell {
                        assert(cells@[held.len() as int] == p);
                    }
                    if cells@.contains(p) {
                        let j = choose|j: int| 0 <= j < cells@.len() && cells@[j] == p;
                        if j < held.len() {
                            assert(held[j] == p);
                        }
                    }
                }
                assert(!held.contains(cell));
                assert(cell != start);
                assert forall|p: Position| cells@.contains(p) <==> after.contains(p) && p
                    != start by {
                    assert(cells@.contains(p) <==> held.contains(p) || p == cell);
                    assert(held.contains(p) <==> before.contains(p) && p != start);
                    assert(after.contains(p) <==> before.contains(p) || p == cell);
                }
                assert forall|a: int, b: int|
                    0 <= a < cells@.len() && 0 <= b < cells@.len() && a != b implies cells@[a]
                    != cells@[b] by {
                    if a == held.len() {
                        assert(held.contains(held[b]));
                    } else if b == held.len() {
                        assert(held.contains(held[a]));
                    }
                }
            }
        } else {
            proof {
                assert(cell == start);
                assert forall|p: Position| cells@.contains(p) <==> after.contains(p) && p
                    != start by {
                    assert(held.contains(p) <==> before.contains(p) && p != start);
                    assert(after.contains(p) <==> before.contains(p) || p == cell);
                }
            }
        }
        i += 1;
    }
    proof {
        assert(all@.subrange(0, i as int) =~= all@);
        assert(cells@.to_set() =~= area@.remove(start));
        cells@.unique_seq_to_set();
        area.lemma_members_in_bounds();
    }
    cells
}

/// Counts the cells of `cells` on which one more obstacle makes the guard,
/// setting out from `start`, walk in a loop. Each cell is tried by itself:
/// the obstacle is put there, the patrol is run, and the obstacle is taken
/// away again, so that the obstacles end up as they were.
pub fn count_loops(light: &mut LightWeightGuardSimulation, cells: &Vec<Position>, start: Guard) -> (n:
    usize)
    requires
        old(light).grid.wf(),
        old(light).grid.temp() is None,
        in_bounds(old(light).side(), start.pos),
        cells@.no_duplicates(),
        forall|i: int| 0 <= i < cells@.len() ==> in_bounds(old(light).side(), #[trigger] cells@[i]),
    ensures
        n == Set::new(
            |p: Position| cells@.contains(p) && loops(old(light).obstacle_set().insert(p), start),
        ).len(),
        n <= cells@.len(),
        final(light).grid.wf(),
        final(light).grid.temp() is None,
        final(light).obstacle_set() == old(light).obstacle_set(),
        final(light).side() == old(light).side(),
{
    let ghost obs = light.obstacle_set();
    let ghost size = light.side();
    let mut n: usize = 0;
    let mut i: usize = 0;
    proof {
        assert(Set::new(
            |p: Position| cells@.subrange(0, 0).contains(p) && loops(obs.insert(p), start),
        ) =~= Set::<Position>::empty());
    }
    while i < cells.len()
        invariant
            i <= cells.len(),
            n <= i,
            light.grid.wf(),
            light.grid.temp() is None,
            light.obstacle_set() == obs,
            light.side() == size,
            in_bounds(size, start.pos),
            cells@.no_duplicates(),
            forall|j: int| 0 <= j < cells@.len() ==> in_bounds(size, #[trigger] cells@[j]),
            Set::new(
                |p: Position| cells@.subrange(0, i as int).contains(p) && loops(obs.insert(p), start),
            ).finite(),
            n == Set::new(
                |p: Position| cells@.subrange(0, i as int).contains(p) && loops(obs.insert(p), start),
            ).len(),
        decreases cells.len() - i,
    {
        let cell = cells[i];
        let ghost before = cells@.subrange(0, i as int);
        let ghost after = cells@.subrange(0, i + 1);
        let ghost hits = Set::new(|p: Position| before.contains(p) && loops(obs.insert(p), start));
        light.reset(start);
        light.insert_temp_obstacle(cell);
        let looping = light.run();
        light.remove_temp_obstacle(cell);
        proof {
            lemma_temp_obstacle_leaves_no_trace(obs, cell);
            assert(after =~= before.push(cell));
            assert forall|p: Position| after.contains(p) <==> before.contains(p) || p == cell by {
                if before.contains(p) {
                    let j = choose|j: int| 0 <= j < before.len() && before[j] == p;
                    assert(after[j] == p);
                }
                if p == cell {
                    assert(after[i as int] == p);
                }
                if after.contains(p) {
                    let j = choose|j: int| 0 <= j < after.len() && after[j] == p;
                    if j < i {
                        assert(before[j] == p);
                    }
                }
            }
            if before.contains(cell) {
                let j = choose|j: int| 0 <= j < before.len() && before[j] == cell;
                assert(cells@[j] == cells@[i as int]);
            }
            let more = Set::new(|p: Position| after.contains(p) && loops(obs.insert(p), start));
            if looping {
                assert(more =~= hits.insert(cell));
            } else {
                assert(more =~= hits);
            }
        }
        if looping {
            n += 1;
        }
        i += 1;
    }
    proof {
        assert(cells@.subrange(0, i as int) =~= cells@);
    }
    n
}

/// The number of cells the guard passes over on its patrol.
pub fn part1(simulation: GuardSimulation) -> (n: usize)
    requires
        simulation.wf(),
    ensures
        n == area_after_run(simulation).len(),
{
    let mut simulation = simulation;
    simulation.run();
    simulation.visited_area.len()
}

/// The number of cells on the guard's way, other than the one it starts
/// from, on which one more obstacle makes it walk in a loop.
pub fn part2(simulation: GuardSimulation) -> (n: usize)
    requires
        simulation.wf(),
    ensures
        n == loop_positions(area_after_run(simulation), simulation.obstacle_set(), simulation.guard).len(),
        n <= area_after_run(simulation).remove(simulation.guard.pos).len(),
        area_after_run(simulation).contains(simulation.guard.pos) ==> n <= area_after_run(
            simulation,
        ).len() - 1,
{
    let start_guard = simulation.guard;
    let mut light = simulation.into_lightweight();
    let mut first_simulation = simulation;
    first_simulation.run();
    let cells = candidates(&first_simulation.visited_area, start_guard.pos);
    proof {
        first_simulation.visited_area.lemma_members_in_bounds();
        assert forall|i: int| 0 <= i < cells@.len() implies in_bounds(
            light.side(),
            #[trigger] cells@[i],
        ) by {
            assert(cells@.to_set().contains(cells@[i]));
        }
        assert(first_simulation.visited_area@ == area_after_run(simulation));
        assert(light.obstacle_set() == simulation.obstacle_set());
        assert forall|p: Position|
            cells@.contains(p) <==> area_after_run(simulation).contains(p) && p
                != start_guard.pos by {
            assert(cells@.to_set().contains(p) <==> cells@.contains(p));
        }
        assert(Set::new(
            |p: Position| cells@.contains(p) && loops(light.obstacle_set().insert(p), start_guard),
        ) =~= loop_positions(
            area_after_run(simulation),
            simulation.obstacle_set(),
            simulation.guard,
        ));
    }
    count_loops(&mut light, &cells, start_guard)
}

} // verus!
