use vstd::prelude::*;
use crate::patrol::bitset::{BitSet, reads_before};
use crate::patrol::direction::Direction;
use crate::patrol::guard::{Guard, Position};
use crate::patrol::index::ObstacleIndex;
use crate::patrol::simulation::GuardSimulation;

verus! {

/// Why a map of characters cannot be patrolled.
#[derive(PartialEq, Eq, Structural, Debug, Clone, Copy)]
pub enum LoadError {
    /// Some row is not as long as the map is high.
    NotSquare,
    /// The map has more cells than can be counted.
    TooLarge,
    /// No cell holds the guard.
    NoStart,
}

/// The character that marks an obstacle.
pub const OBSTACLE: char = '#';

/// The direction of the guard that `c` shows, if it shows one.
pub open spec fn facing(c: char) -> Option<Direction> {
    if c == '^' {
        Some(Direction::Up)
    } else if c == '>' {
        Some(Direction::Right)
    } else if c == 'v' {
        Some(Direction::Down)
    } else if c == '<' {
        Some(Direction::Left)
    } else {
        None
    }
}

/// Whether every row is as long as the map is high.
pub open spec fn is_square(rows: Seq<Vec<char>>) -> bool {
    forall|r: int| 0 <= r < rows.len() ==> (#[trigger] rows[r])@.len() == rows.len()
}

/// The character on cell `p` of the map.
pub open spec fn cell(rows: Seq<Vec<char>>, p: Position) -> char {
    rows[p.0 as int]@[p.1 as int]
}

/// Whether cell `p` of a square map shows the guard.
pub open spec fn shows_guard(rows: Seq<Vec<char>>, p: Position) -> bool {
    p.0 < rows.len() && p.1 < rows.len() && facing(cell(rows, p)) is Some
}

/// Whether `g` is the guard that a square map shows first, read row by row.
pub open spec fn is_first_guard(rows: Seq<Vec<char>>, g: Guard) -> bool {
    &&& shows_guard(rows, g.pos)
    &&& facing(cell(rows, g.pos)) == Some(g.direction)
    &&& forall|p: Position| shows_guard(rows, p) && p != g.pos ==> reads_before(g.pos, p)
}

/// The cells of a square map that hold an obstacle.
pub open spec fn obstacle_cells(rows: Seq<Vec<char>>) -> Set<Position> {
    Set::new(|p: Position| p.0 < rows.len() && p.1 < rows.len() && cell(rows, p) == OBSTACLE)
}

/// What keeps a map from being patrolled, if anything; the first fault in
/// the order of `LoadError` counts.
pub open spec fn load_fault(rows: Seq<Vec<char>>) -> Option<LoadError> {
    if !is_square(rows) {
        Some(LoadError::NotSquare)
    } else if rows.len() * rows.len() > usize::MAX {
        Some(LoadError::TooLarge)
    } else if !exists|p: Position| shows_guard(rows, p) {
        Some(LoadError::NoStart)
    } else {
        None
    }
}

/// The direction of the guard that `c` shows, if it shows one.
pub fn facing_of(c: char) -> (r: Option<Direction>)
    ensures
        r == facing(c),
{
    if c == '^' {
        Some(Direction::Up)
    } else if c == '>' {
        Some(Direction::Right)
    } else if c == 'v' {
        Some(Direction::Down)
    } else if c == '<' {
        Some(Direction::Left)
    } else {
        None
    }
}

/// Whether every row is as long as the map is high.
pub fn check_square(rows: &Vec<Vec<char>>) -> (r: bool)
    ensures
        r == is_square(rows@),
{
    let mut i: usize = 0;
    while i < rows.len()
        invariant
            i <= rows.len(),
            forall|r: int| 0 <= r < i ==> (#[trigger] rows@[r])@.len() == rows@.len(),
        decreases rows.len() - i,
    {
        if rows[i].len() != rows.len() {
            return false;
        }
        i += 1;
    }
    true
}

/// Reads a patrol from a square map of characters: `#` is an obstacle, and
/// `^`, `>`, `v` or `<` is the guard facing that way. Of several guards
/// the first counts, read row by row. Any other character is free ground.
pub fn load_data(rows: &Vec<Vec<char>>) -> (r: Result<GuardSimulation, LoadError>)
    ensures
        match r {
            Ok(sim) => {
                &&& load_fault(rows@) is None
                &&& sim.wf()
                &&& sim.running()
                &&& sim.size == rows@.len()
                &&& sim.obstacle_set() == obstacle_cells(rows@)
                &&& sim.obstacles@.no_duplicates()
                &&& is_first_guard(rows@, sim.guard)
                &&& sim.visited_area@ == Set::<Position>::empty()
            },
            Err(e) => load_fault(rows@) == Some(e),
        },
{
    let size = rows.len();
    if !check_square(rows) {
        return Err(LoadError::NotSquare);
    }
    if size.checked_mul(size).is_none() {
        return Err(LoadError::TooLarge);
    }
    let mut obstacles: Vec<Position> = Vec::new();
    let mut guard: Option<Guard> = None;
    let mut r: usize = 0;
    while r < size
        invariant
            size == rows@.len(),
            is_square(rows@),
            r <= size,
            forall|p: Position|
                obstacles@.contains(p) <==> obstacle_cells(rows@).contains(p) && p.0 < r,
            forall|i: int, j: int|
                0 <= i < j < obstacles@.len() ==> reads_before(
                    #[trigger] obstacles@[i],
                    #[trigger] obstacles@[j],
                ),
            guard is Some ==> is_first_guard(rows@, guard->Some_0) && guard->Some_0.pos.0 < r,
            guard is None ==> forall|p: Position| shows_guard(rows@, p) ==> p.0 >= r,
        decreases size - r,
    {
        let mut c: usize = 0;
        while c < size
            invariant
                size == rows@.len(),
                is_square(rows@),
                r < size,
                c <= size,
                forall|p: Position|
                    obstacles@.contains(p) <==> obstacle_cells(rows@).contains(p) && (p.0 < r || (
                    p.0 == r && p.1 < c)),
                forall|i: int, j: int|
                    0 <= i < j < obstacles@.len() ==> reads_before(
                        #[trigger] obstacles@[i],
                        #[trigger] obstacles@[j],
                    ),
                guard is Some ==> is_first_guard(rows@, guard->Some_0) && reads_before(
                    guard->Some_0.pos,
                    (r, c),
                ),
                guard is None ==> forall|p: Position|
                    shows_guard(rows@, p) ==> !reads_before(p, (r, c)),
            decreases size - c,
        {
            let ch = rows[r][c];
            proof {
                assert(rows@[r as int]@.len() == size);
                assert(cell(rows@, (r, c)) == ch);
            }
            if ch == OBSTACLE {
                let ghost before = obstacles@;
                obstacles.push((r, c));
                proof {
                    assert(obstacles@ == before.push((r, c)));
                    assert forall|p: Position|
                        obstacles@.contains(p) <==> obstacle_cells(rows@).contains(p) && (p.0 < r
                            || (p.0 == r && p.1 < c + 1)) by {
                        if obstacles@.contains(p) {
                            let i = choose|i: int| 0 <= i < obstacles@.len() && obstacles@[i] == p;
                            if i < before.len() {
                                assert(before[i] == p);
                                assert(before.contains(p));
                            }
                        }
                        if obstacle_cells(rows@).contains(p) && (p.0 < r || (p.0 == r && p.1 < c
                            + 1)) {
                            if p == (r, c) {
                                assert(obstacles@[before.len() as int] == p);
                            } else {
                                assert(before.contains(p));
                                let i = choose|i: int| 0 <= i < before.len() && before[i] == p;
                                assert(obstacles@[i] == p);
                            }
                        }
                    }
                    assert forall|i: int, j: int| 0 <= i < j < obstacles@.len() implies reads_before(
                        #[trigger] obstacles@[i],
                        #[trigger] obstacles@[j],
                    ) by {
                        if j == before.len() {
                            assert(before.contains(before[i]));
                        } else {
                            assert(reads_before(before[i], before[j]));
                        }
                    }
                }
            } else if guard.is_none() {
                if let Some(direction) = facing_of(ch) {
                    guard = Some(Guard { pos: (r, c), direction });
                    proof {
                        assert forall|p: Position| shows_guard(rows@, p) && p != (
                            r,
                            c,
                        ) implies reads_before((r, c), p) by {}
                    }
                }
            }
            c += 1;
        }
        r += 1;
    }
    let guard = match guard {
        Some(g) => g,
        None => {
            return Err(LoadError::NoStart);
        },
    };
    proof {
        assert(obstacles@.to_set() =~= obstacle_cells(rows@));
        assert forall|i: int, j: int|
            0 <= i < obstacles@.len() && 0 <= j < obstacles@.len() && i != j implies obstacles@[i]
            != obstacles@[j] by {
            if i < j {
                assert(reads_before(obstacles@[i], obstacles@[j]));
            } else {
                assert(reads_before(obstacles@[j], obstacles@[i]));
            }
        }
        assert(shows_guard(rows@, guard.pos));
    }
    proof {
        assert forall|i: int| 0 <= i < obstacles@.len() implies crate::patrol::guard::in_bounds(
            size,
            #[trigger] obstacles@[i],
        ) by {
            assert(obstacles@.to_set().contains(obstacles@[i]));
        }
    }
    let index = ObstacleIndex::from_obstacles(size, &obstacles);
    Ok(
        GuardSimulation {
            guard,
            size,
            obstacles,
            index,
            out_of_area: false,
            visited_area: BitSet::new(size),
            in_loop: false,
        },
    )
}

} // verus!
