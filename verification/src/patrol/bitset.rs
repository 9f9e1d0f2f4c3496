use vstd::prelude::*;
use crate::patrol::counting::lemma_cells_bounded;
use crate::patrol::guard::{Position, in_bounds};

verus! {

/// A set of grid cells, kept as a dense table of flags with a running count.
#[derive(Clone, Debug)]
pub struct BitSet {
    size: usize,
    count: usize,
    data: Vec<Vec<bool>>,
}

/// Whether cell `a` comes before cell `b` when the grid is read row by row.
pub open spec fn reads_before(a: Position, b: Position) -> bool {
    a.0 < b.0 || (a.0 == b.0 && a.1 < b.1)
}

/// The cells of row `row` from column `lo` to column `hi`, both included.
pub open spec fn row_span(row: usize, lo: usize, hi: usize) -> Set<Position> {
    Set::new(|p: Position| p.0 == row && lo <= p.1 <= hi)
}

/// The cells of column `col` from row `lo` to row `hi`, both included.
pub open spec fn col_span(col: usize, lo: usize, hi: usize) -> Set<Position> {
    Set::new(|p: Position| p.1 == col && lo <= p.0 <= hi)
}

impl View for BitSet {
    type V = Set<Position>;

    closed spec fn view(&self) -> Set<Position> {
        Set::new(
            |p: Position| p.0 < self.size && p.1 < self.size && self.data@[p.0 as int]@[p.1 as int],
        )
    }
}

impl BitSet {
    /// The side of the grid whose cells the set can hold.
    pub closed spec fn side(&self) -> usize {
        self.size
    }

    /// The table has `side` rows of `side` flags and the count is exact.
    pub closed spec fn wf(&self) -> bool {
        &&& self.size * self.size <= usize::MAX
        &&& self.data@.len() == self.size
        &&& forall|r: int| 0 <= r < self.size ==> (#[trigger] self.data@[r])@.len() == self.size
        &&& self@.finite()
        &&& self.count == self@.len()
    }

    /// Every member of a well-formed set is a cell of the grid.
    pub proof fn lemma_members_in_bounds(&self)
        requires
            self.wf(),
        ensures
            forall|p: Position| self@.contains(p) ==> in_bounds(self.side(), p),
            self@.finite(),
            self@.len() <= self.side() * self.side(),
    {
        lemma_cells_bounded(self@, self.size);
    }

    /// An empty set over a grid of side `size`.
    pub fn new(size: usize) -> (s: BitSet)
        requires
            size * size <= usize::MAX,
        ensures
            s.wf(),
            s.side() == size,
            s@ == Set::<Position>::empty(),
    {
        let mut data: Vec<Vec<bool>> = Vec::new();
        let mut r: usize = 0;
        while r < size
            invariant
                r <= size,
                data@.len() == r,
                forall|i: int| 0 <= i < r ==> (#[trigger] data@[i])@.len() == size,
                forall|i: int, j: int| 0 <= i < r && 0 <= j < size ==> !(#[trigger] data@[i]@[j]),
            decreases size - r,
        {
            let mut row: Vec<bool> = Vec::new();
            let mut c: usize = 0;
            while c < size
                invariant
                    c <= size,
                    row@.len() == c,
                    forall|j: int| 0 <= j < c ==> !(#[trigger] row@[j]),
                decreases size - c,
            {
                row.push(false);
                c += 1;
            }
            data.push(row);
            r += 1;
        }
        let s = BitSet { size, count: 0, data };
        proof {
            assert(s@ =~= Set::<Position>::empty());
        }
        s
    }

    /// Whether `pos` is a member. A cell outside the grid never is.
    pub fn contains(&self, pos: &Position) -> (r: bool)
        requires
            self.wf(),
        ensures
            r == self@.contains(*pos),
    {
        if pos.0 < self.size && pos.1 < self.size {
            self.data[pos.0][pos.1]
        } else {
            false
        }
    }

    /// Adds `pos` to the set; a cell that is already a member stays one.
    pub fn insert(&mut self, pos: Position)
        requires
            old(self).wf(),
            in_bounds(old(self).side(), pos),
        ensures
            final(self).wf(),
            final(self).side() == old(self).side(),
            final(self)@ == old(self)@.insert(pos),
    {
        if !self.contains(&pos) {
            proof {
                self.lemma_members_in_bounds();
                assert(self@.insert(pos).len() == self@.len() + 1);
                lemma_cells_bounded(self@.insert(pos), self.size);
            }
            self.data[pos.0][pos.1] = true;
            self.count += 1;
            proof {
                assert(self@ =~= old(self)@.insert(pos));
            }
        } else {
            proof {
                assert(self@ =~= old(self)@.insert(pos));
            }
        }
    }

    /// Adds the cells of row `row` from column `lo` to column `hi`, both
    /// included. Nothing is added when `lo` is beyond `hi`.
    pub fn insert_row_span(&mut self, row: usize, lo: usize, hi: usize)
        requires
            old(self).wf(),
            row < old(self).side(),
            hi < old(self).side(),
        ensures
            final(self).wf(),
            final(self).side() == old(self).side(),
            final(self)@ == old(self)@.union(row_span(row, lo, hi)),
    {
        let mut c: usize = lo;
        if lo > hi {
            proof {
                assert(self@ =~= old(self)@.union(row_span(row, lo, hi)));
            }
            return ;
        }
        proof {
            assert(self@ =~= old(self)@.union(Set::new(|p: Position| p.0 == row && lo <= p.1 < c)));
        }
        while c <= hi
            invariant
                self.wf(),
                self.side() == old(self).side(),
                row < self.side(),
                hi < self.side(),
                lo <= c <= hi + 1,
                self@ == old(self)@.union(Set::new(|p: Position| p.0 == row && lo <= p.1 < c)),
            decreases hi + 1 - c,
        {
            self.insert((row, c));
            proof {
                assert(self@ =~= old(self)@.union(
                    Set::new(|p: Position| p.0 == row && lo <= p.1 < c + 1),
                ));
            }
            c += 1;
        }
        proof {
            assert(self@ =~= old(self)@.union(row_span(row, lo, hi)));
        }
    }

    /// Adds the cells of column `col` from row `lo` to row `hi`, both
    /// included. Nothing is added when `lo` is beyond `hi`.
    pub fn insert_col_span(&mut self, col: usize, lo: usize, hi: usize)
        requires
            old(self).wf(),
            col < old(self).side(),
            hi < old(self).side(),
        ensures
            final(self).wf(),
            final(self).side() == old(self).side(),
            final(self)@ == old(self)@.union(col_span(col, lo, hi)),
    {
        let mut r: usize = lo;
        if lo > hi {
            proof {
                assert(self@ =~= old(self)@.union(col_span(col, lo, hi)));
            }
            return ;
        }
        proof {
            assert(self@ =~= old(self)@.union(Set::new(|p: Position| p.1 == col && lo <= p.0 < r)));
        }
        while r <= hi
            invariant
                self.wf(),
                self.side() == old(self).side(),
                col < self.side(),
                hi < self.side(),
                lo <= r <= hi + 1,
                self@ == old(self)@.union(Set::new(|p: Position| p.1 == col && lo <= p.0 < r)),
            decreases hi + 1 - r,
        {
            self.insert((r, col));
            proof {
                assert(self@ =~= old(self)@.union(
                    Set::new(|p: Position| p.1 == col && lo <= p.0 < r + 1),
                ));
            }
            r += 1;
        }
        proof {
            assert(self@ =~= old(self)@.union(col_span(col, lo, hi)));
        }
    }

    /// The members in reading order: by row, and within a row by column.
    pub fn to_vec(&self) -> (cells: Vec<Position>)
        requires
            self.wf(),
        ensures
            cells@.to_set() == self@,
            cells@.no_duplicates(),
            cells@.len() == self@.len(),
            forall|i: int, j: int|
                0 <= i < j < cells@.len() ==> reads_before(#[trigger] cells@[i], #[trigger] cells@[j]),
    {
        let mut cells: Vec<Position> = Vec::new();
        let mut r: usize = 0;
        while r < self.size
            invariant
                self.wf(),
                r <= self.size,
                forall|p: Position| cells@.contains(p) <==> self@.contains(p) && p.0 < r,
                forall|i: int, j: int|
                    0 <= i < j < cells@.len() ==> reads_before(
                        #[trigger] cells@[i],
                        #[trigger] cells@[j],
                    ),
            decreases self.size - r,
        {
            let mut c: usize = 0;
            while c < self.size
                invariant
                    self.wf(),
                    r < self.size,
                    c <= self.size,
                    forall|p: Position|
                        cells@.contains(p) <==> self@.contains(p) && (p.0 < r || (p.0 == r && p.1
                            < c)),
                    forall|i: int, j: int|
                        0 <= i < j < cells@.len() ==> reads_before(
                            #[trigger] cells@[i],
                            #[trigger] cells@[j],
                        ),
                decreases self.size - c,
            {
                if self.data[r][c] {
                    let ghost before = cells@;
                    cells.push((r, c));
                    proof {
                        assert(cells@ == before.push((r, c)));
                        assert forall|p: Position| cells@.contains(p) <==> self@.contains(p) && (p.0
                            < r || (p.0 == r && p.1 < c + 1)) by {
                            if cells@.contains(p) {
                                let i = choose|i: int| 0 <= i < cells@.len() && cells@[i] == p;
                                if i < before.len() {
                                    assert(before[i] == p);
                                    assert(before.contains(p));
                                }
                            }
                            if self@.contains(p) && (p.0 < r || (p.0 == r && p.1 < c + 1)) {
                                if p == (r, c) {
                                    assert(cells@[before.len() as int] == p);
                                } else {
                                    assert(before.contains(p));
                                    let i = choose|i: int| 0 <= i < before.len() && before[i] == p;
                                    assert(cells@[i] == p);
                                }
                            }
                        }
                        assert forall|i: int, j: int| 0 <= i < j < cells@.len() implies reads_before(
                            #[trigger] cells@[i],
                            #[trigger] cells@[j],
                        ) by {
                            if j == before.len() {
                                assert(before.contains(before[i]));
                            } else {
                                assert(reads_before(before[i], before[j]));
                            }
                        }
                    }
                }
                c += 1;
            }
            r += 1;
        }
        proof {
            assert(cells@.to_set() =~= self@);
            assert forall|i: int, j: int|
                0 <= i < cells@.len() && 0 <= j < cells@.len() && i != j implies cells@[i]
                != cells@[j] by {
                if i < j {
                    assert(reads_before(cells@[i], cells@[j]));
                } else {
                    assert(reads_before(cells@[j], cells@[i]));
                }
            }
            cells@.unique_seq_to_set();
        }
        cells
    }

    /// The number of members.
    pub fn len(&self) -> (n: usize)
        requires
            self.wf(),
        ensures
            n == self@.len(),
    {
        self.count
    }
}

} // verus!
