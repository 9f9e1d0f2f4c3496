use vstd::prelude::*;
use vstd::set_lib::*;
use crate::patrol::direction::Direction;
use crate::patrol::guard::{Guard, Position, in_bounds};

verus! {

/// The first `cols` cells of row `row`.
pub open spec fn row_cells(row: usize, cols: usize) -> Set<Position> {
    Set::new(|p: Position| p.0 == row && p.1 < cols)
}

/// The cells of the first `rows` rows of a grid of side `size`.
pub open spec fn grid_cells(rows: usize, size: usize) -> Set<Position> {
    Set::new(|p: Position| p.0 < rows && p.1 < size)
}

/// The guard states whose cell is one of the first `cols` of row `row`.
pub open spec fn row_states(row: usize, cols: usize) -> Set<Guard> {
    Set::new(|g: Guard| g.pos.0 == row && g.pos.1 < cols)
}

/// The guard states whose cell is in the first `rows` rows of the grid.
pub open spec fn grid_states(rows: usize, size: usize) -> Set<Guard> {
    Set::new(|g: Guard| g.pos.0 < rows && g.pos.1 < size)
}

proof fn lemma_row_cells(row: usize, cols: usize)
    ensures
        row_cells(row, cols).finite(),
        row_cells(row, cols).len() <= cols,
    decreases cols,
{
    if cols == 0 {
        assert(row_cells(row, cols) =~= Set::<Position>::empty());
    } else {
        let less = (cols - 1) as usize;
        lemma_row_cells(row, less);
        assert(row_cells(row, cols) =~= row_cells(row, less).insert((row, less)));
    }
}

proof fn lemma_grid_cells(rows: usize, size: usize)
    ensures
        grid_cells(rows, size).finite(),
        grid_cells(rows, size).len() <= rows * size,
    decreases rows,
{
    if rows == 0 {
        assert(grid_cells(rows, size) =~= Set::<Position>::empty());
    } else {
        let less = (rows - 1) as usize;
        lemma_grid_cells(less, size);
        lemma_row_cells(less, size);
        assert(grid_cells(rows, size) =~= grid_cells(less, size).union(row_cells(less, size)));
        lemma_len_union(grid_cells(less, size), row_cells(less, size));
        assert(less * size + size == rows * size) by (nonlinear_arith)
            requires
                less + 1 == rows,
        ;
    }
}

proof fn lemma_row_states(row: usize, cols: usize)
    ensures
        row_states(row, cols).finite(),
        row_states(row, cols).len() <= 4 * cols,
    decreases cols,
{
    if cols == 0 {
        assert(row_states(row, cols) =~= Set::<Guard>::empty());
    } else {
        let less = (cols - 1) as usize;
        lemma_row_states(row, less);
        let p: Position = (row, less);
        let grown = row_states(row, less).insert(Guard { pos: p, direction: Direction::Up }).insert(
            Guard { pos: p, direction: Direction::Down },
        ).insert(Guard { pos: p, direction: Direction::Left }).insert(
            Guard { pos: p, direction: Direction::Right },
        );
        assert forall|g: Guard| row_states(row, cols).contains(g) implies grown.contains(g) by {
            if g.pos.1 == less {
                assert(g.pos == p);
                match g.direction {
                    Direction::Up => assert(g == Guard { pos: p, direction: Direction::Up }),
                    Direction::Down => assert(g == Guard { pos: p, direction: Direction::Down }),
                    Direction::Left => assert(g == Guard { pos: p, direction: Direction::Left }),
                    Direction::Right => assert(g == Guard { pos: p, direction: Direction::Right }),
                }
            }
        }
        assert(row_states(row, cols) =~= grown);
    }
}

proof fn lemma_grid_states(rows: usize, size: usize)
    ensures
        grid_states(rows, size).finite(),
        grid_states(rows, size).len() <= 4 * (rows * size),
    decreases rows,
{
    if rows == 0 {
        assert(grid_states(rows, size) =~= Set::<Guard>::empty());
    } else {
        let less = (rows - 1) as usize;
        lemma_grid_states(less, size);
        lemma_row_states(less, size);
        assert(grid_states(rows, size) =~= grid_states(less, size).union(row_states(less, size)));
        lemma_len_union(grid_states(less, size), row_states(less, size));
        assert(less * size + size == rows * size) by (nonlinear_arith)
            requires
                less + 1 == rows,
        ;
    }
}

/// A set of cells inside a grid of side `size` has at most `size * size`
/// members.
pub proof fn lemma_cells_bounded(s: Set<Position>, size: usize)
    requires
        forall|p: Position| s.contains(p) ==> in_bounds(size, p),
    ensures
        s.finite(),
        s.len() <= size * size,
{
    lemma_grid_cells(size, size);
    lemma_len_subset(s, grid_cells(size, size));
}

/// A set of guard states inside a grid of side `size` has at most
/// `4 * size * size` members.
pub proof fn lemma_states_bounded(s: Set<Guard>, size: usize)
    requires
        forall|g: Guard| s.contains(g) ==> in_bounds(size, g.pos),
    ensures
        s.finite(),
        s.len() <= 4 * (size * size),
{
    lemma_grid_states(size, size);
    lemma_len_subset(s, grid_states(size, size));
}

} // verus!
