use vstd::prelude::*;
use crate::patrol::bitset::{BitSet, reads_before};
use crate::patrol::guard::Position;

verus! {

/// A square map of heights.
#[derive(Debug)]
pub struct HeightMap {
    pub data: Vec<Vec<u8>>,
}

/// The greatest height of a map.
pub const PEAK: u8 = 9;

impl HeightMap {
    /// The side of the map.
    pub open spec fn side(&self) -> nat {
        self.data@.len()
    }

    /// The map is square and no height is above the peak.
    pub open spec fn wf(&self) -> bool {
        &&& forall|r: int| 0 <= r < self.data@.len() ==> (#[trigger] self.data@[r])@.len() == self.side()
        &&& forall|r: int, c: int|
            0 <= r < self.side() && 0 <= c < self.side() ==> (#[trigger] self.data@[r]@[c]) <= PEAK
    }

    /// The height of cell `p`.
    pub open spec fn height(&self, p: Position) -> u8 {
        self.data@[p.0 as int]@[p.1 as int]
    }

    /// Whether `p` is a cell of the map.
    pub open spec fn on_map(&self, p: Position) -> bool {
        p.0 < self.side() && p.1 < self.side()
    }

    /// The cell above `p`, for a cell that is not in the first row.
    pub open spec fn up(p: Position) -> Position {
        ((p.0 - 1) as usize, p.1)
    }

    /// The cell left of `p`, for a cell that is not in the first column.
    pub open spec fn left(p: Position) -> Position {
        (p.0, (p.1 - 1) as usize)
    }

    /// The cell below `p`.
    pub open spec fn down(p: Position) -> Position {
        ((p.0 + 1) as usize, p.1)
    }

    /// The cell right of `p`.
    pub open spec fn right(p: Position) -> Position {
        (p.0, (p.1 + 1) as usize)
    }

    /// The neighbour of `p` in one of the four directions, numbered up,
    /// left, down, right, where it is one higher than `p`.
    pub open spec fn step(&self, p: Position, direction: int) -> Option<Position> {
        let q = if direction == 0 {
            HeightMap::up(p)
        } else if direction == 1 {
            HeightMap::left(p)
        } else if direction == 2 {
            HeightMap::down(p)
        } else {
            HeightMap::right(p)
        };
        let there = if direction == 0 {
            p.0 > 0
        } else if direction == 1 {
            p.1 > 0
        } else if direction == 2 {
            p.0 + 1 < self.side()
        } else {
            p.1 + 1 < self.side()
        };
        if there && self.height(q) == self.height(p) + 1 {
            Some(q)
        } else {
            None
        }
    }

    /// The number of ways to climb from cell `p` to a peak, one step up at
    /// a time.
    pub open spec fn rating(&self, p: Position) -> nat
        decreases 255 - self.height(p),
    {
        if self.height(p) == PEAK {
            1
        } else if self.height(p) >= 255 {
            0
        } else {
            self.rating_by(p, 0) + self.rating_by(p, 1) + self.rating_by(p, 2) + self.rating_by(p, 3)
        }
    }

    /// The number of ways to climb from cell `p` to a peak that set out in
    /// the given direction.
    pub open spec fn rating_by(&self, p: Position, direction: int) -> nat
        decreases 255 - self.height(p), 0nat,
    {
        if self.height(p) >= 255 {
            0
        } else {
            match self.step(p, direction) {
                Some(q) => self.rating(q),
                None => 0,
            }
        }
    }

    /// The peaks that can be reached from cell `p`, one step up at a time.
    pub open spec fn peaks(&self, p: Position) -> Set<Position>
        decreases 255 - self.height(p),
    {
        if self.height(p) == PEAK {
            set![p]
        } else if self.height(p) >= 255 {
            Set::empty()
        } else {
            self.peaks_by(p, 0).union(self.peaks_by(p, 1)).union(self.peaks_by(p, 2)).union(
                self.peaks_by(p, 3),
            )
        }
    }

    /// The peaks that can be reached from cell `p` setting out in the given
    /// direction.
    pub open spec fn peaks_by(&self, p: Position, direction: int) -> Set<Position>
        decreases 255 - self.height(p), 0nat,
    {
        if self.height(p) >= 255 {
            Set::empty()
        } else {
            match self.step(p, direction) {
                Some(q) => self.peaks(q),
                None => Set::empty(),
            }
        }
    }

    /// The height of cell `coord`.
    pub fn index(&self, coord: Position) -> (h: u8)
        requires
            self.wf(),
            self.on_map(coord),
        ensures
            h == self.height(coord),
    {
        self.data[coord.0][coord.1]
    }

    /// The neighbours of `coord` that are one higher: the one above, the
    /// one to the left, the one below and the one to the right, each where
    /// there is such a cell.
    pub fn sourrounding_higher(&self, coord: Position) -> (result: [Option<Position>; 4])
        requires
            self.wf(),
            self.on_map(coord),
        ensures
            forall|d: int| 0 <= d < 4 ==> #[trigger] result@[d] == self.step(coord, d),
    {
        let size = self.data.len();
        let value = self.index(coord);
        let up = if coord.0 > 0 && self.data[coord.0 - 1][coord.1] as u16 == value as u16 + 1 {
            Some((coord.0 - 1, coord.1))
        } else {
            None
        };
        let left = if coord.1 > 0 && self.data[coord.0][coord.1 - 1] as u16 == value as u16 + 1 {
            Some((coord.0, coord.1 - 1))
        } else {
            None
        };
        let down = if coord.0 < size - 1 && self.data[coord.0 + 1][coord.1] as u16 == value as u16
            + 1 {
            Some((coord.0 + 1, coord.1))
        } else {
            None
        };
        let right = if coord.1 < size - 1 && self.data[coord.0][coord.1 + 1] as u16 == value as u16
            + 1 {
            Some((coord.0, coord.1 + 1))
        } else {
            None
        };
        [up, left, down, right]
    }

    /// The number of ways to climb from `coord` to a peak, one step up at
    /// a time.
    pub fn get_rating(&self, coord: Position) -> (found: usize)
        requires
            self.wf(),
            self.on_map(coord),
        ensures
            found == self.rating(coord),
        decreases 255 - self.height(coord),
    {
        proof {
            self.lemma_rating_bounded(coord);
            assert(pow4(9) == 262144) by {
                reveal_with_fuel(pow4, 10);
            }
            lemma_pow4_grows((PEAK - self.height(coord)) as nat, 9);
        }
        if self.index(coord) == PEAK {
            return 1;
        }
        let next = self.sourrounding_higher(coord);
        proof {
            assert(next@[0] == self.step(coord, 0));
            assert(next@[1] == self.step(coord, 1));
            assert(next@[2] == self.step(coord, 2));
            assert(next@[3] == self.step(coord, 3));
        }
        let up = match next[0] {
            Some(point) => self.get_rating(point),
            None => 0,
        };
        let left = match next[1] {
            Some(point) => self.get_rating(point),
            None => 0,
        };
        let down = match next[2] {
            Some(point) => self.get_rating(point),
            None => 0,
        };
        let right = match next[3] {
            Some(point) => self.get_rating(point),
            None => 0,
        };
        up + left + down + right
    }

    /// From a cell of height `h` there are at most four to the power of
    /// the steps up to the peak ways to climb to a peak.
    pub proof fn lemma_rating_bounded(&self, p: Position)
        requires
            self.wf(),
            self.on_map(p),
        ensures
            self.rating(p) <= pow4((PEAK - self.height(p)) as nat),
        decreases 255 - self.height(p),
    {
        if self.height(p) != PEAK {
            let k = (PEAK - self.height(p) - 1) as nat;
            assert(pow4((k + 1) as nat) == 4 * pow4(k));
            assert forall|d: int| 0 <= d < 4 implies self.rating_by(p, d) <= pow4(k) by {
                match self.step(p, d) {
                    Some(q) => {
                        self.lemma_rating_bounded(q);
                    },
                    None => {},
                }
            }
            assert(self.rating_by(p, 0) <= pow4(k));
            assert(self.rating_by(p, 1) <= pow4(k));
            assert(self.rating_by(p, 2) <= pow4(k));
            assert(self.rating_by(p, 3) <= pow4(k));
        }
    }

    /// Adds to `found` the peaks that can be reached from `coord`.
    pub fn collect_peaks(&self, coord: Position, found: &mut BitSet)
        requires
            self.wf(),
            self.on_map(coord),
            old(found).wf(),
            old(found).side() == self.side(),
        ensures
            final(found).wf(),
            final(found).side() == old(found).side(),
            final(found)@ == old(found)@.union(self.peaks(coord)),
        decreases 255 - self.height(coord),
    {
        if self.index(coord) == PEAK {
            found.insert(coord);
            proof {
                assert(found@ =~= old(found)@.union(self.peaks(coord)));
            }
            return ;
        }
        let next = self.sourrounding_higher(coord);
        proof {
            assert(next@[0] == self.step(coord, 0));
            assert(next@[1] == self.step(coord, 1));
            assert(next@[2] == self.step(coord, 2));
            assert(next@[3] == self.step(coord, 3));
        }
        if let Some(point) = next[0] {
            self.collect_peaks(point, found);
        }
        if let Some(point) = next[1] {
            self.collect_peaks(point, found);
        }
        if let Some(point) = next[2] {
            self.collect_peaks(point, found);
        }
        if let Some(point) = next[3] {
            self.collect_peaks(point, found);
        }
        proof {
            assert(found@ =~= old(found)@.union(self.peaks(coord)));
        }
    }

    /// The number of peaks that can be reached from `coord`, one step up
    /// at a time.
    pub fn get_score(&self, coord: Position) -> (n: usize)
        requires
            self.wf(),
            self.on_map(coord),
            self.side() * self.side() <= usize::MAX,
        ensures
            n == self.peaks(coord).len(),
    {
        let mut found = BitSet::new(self.data.len());
        self.collect_peaks(coord, &mut found);
        proof {
            assert(found@ =~= self.peaks(coord));
        }
        found.len()
    }

    /// Whether `p` is a cell of the map of height zero.
    pub open spec fn is_trailhead(&self, p: Position) -> bool {
        self.on_map(p) && self.height(p) == 0
    }

    /// Whether `p` is a cell of height zero that is read before `upto`.
    pub open spec fn listed(&self, p: Position, upto: Position) -> bool {
        self.is_trailhead(p) && reads_before(p, upto)
    }

    /// The cells of height zero, in reading order.
    pub fn get_trailheads(&self) -> (heads: Vec<Position>)
        requires
            self.wf(),
        ensures
            forall|p: Position| #[trigger] heads@.contains(p) <==> self.is_trailhead(p),
            forall|i: int, j: int|
                0 <= i < j < heads@.len() ==> reads_before(#[trigger] heads@[i], #[trigger] heads@[j]),
    {
        let size = self.data.len();
        let mut heads: Vec<Position> = Vec::new();
        let mut r: usize = 0;
        while r < size
            invariant
                self.wf(),
                size == self.side(),
                r <= size,
                forall|p: Position| #[trigger] heads@.contains(p) <==> self.listed(p, (r, 0)),
                forall|i: int, j: int|
                    0 <= i < j < heads@.len() ==> reads_before(
                        #[trigger] heads@[i],
                        #[trigger] heads@[j],
                    ),
            decreases size - r,
        {
            let mut c: usize = 0;
            while c < size
                invariant
                    self.wf(),
                    size == self.side(),
                    r < size,
                    c <= size,
                    forall|p: Position| #[trigger] heads@.contains(p) <==> self.listed(p, (r, c)),
                    forall|i: int, j: int|
                        0 <= i < j < heads@.len() ==> reads_before(
                            #[trigger] heads@[i],
                            #[trigger] heads@[j],
                        ),
                decreases size - c,
            {
                let ghost before = heads@;
                if self.index((r, c)) == 0 {
                    heads.push((r, c));
                    proof {
                        assert(heads@ == before.push((r, c)));
                        assert forall|p: Position| #[trigger]
                            heads@.contains(p) <==> self.listed(p, (r, (c + 1) as usize)) by {
                            if heads@.contains(p) {
                                let i = choose|i: int| 0 <= i < heads@.len() && heads@[i] == p;
                                if i < before.len() {
                                    assert(before[i] == p);
                                    assert(before.contains(p));
                                    assert(self.listed(p, (r, c)));
                                }
                            }
                            if self.listed(p, (r, (c + 1) as usize)) {
                                if p == (r, c) {
                                    assert(heads@[before.len() as int] == p);
                                } else {
                                    assert(self.listed(p, (r, c)));
                                    assert(before.contains(p));
                                    let i = choose|i: int| 0 <= i < before.len() && before[i] == p;
                                    assert(heads@[i] == p);
                                }
                            }
                        }
                        assert forall|i: int, j: int| 0 <= i < j < heads@.len() implies reads_before(
                            #[trigger] heads@[i],
                            #[trigger] heads@[j],
                        ) by {
                            if j == before.len() {
                                assert(before.contains(before[i]));
                                assert(self.listed(before[i], (r, c)));
                            } else {
                                assert(reads_before(before[i], before[j]));
                            }
                        }
                    }
                } else {
                    proof {
                        assert forall|p: Position| #[trigger]
                            heads@.contains(p) <==> self.listed(p, (r, (c + 1) as usize)) by {
                            assert(heads@.contains(p) <==> self.listed(p, (r, c)));
                        }
                    }
                }
                c += 1;
            }
            proof {
                assert forall|p: Position| #[trigger]
                    heads@.contains(p) <==> self.listed(p, ((r + 1) as usize, 0)) by {
                    assert(heads@.contains(p) <==> self.listed(p, (r, c)));
                }
            }
            r += 1;
        }
        proof {
            assert forall|p: Position| #[trigger] heads@.contains(p) <==> self.is_trailhead(p) by {
                assert(heads@.contains(p) <==> self.listed(p, (r, 0)));
            }
        }
        heads
    }
}

/// Four to the power `k`.
pub open spec fn pow4(k: nat) -> nat
    decreases k,
{
    if k == 0 {
        1
    } else {
        4 * pow4((k - 1) as nat)
    }
}

/// A higher power of four is no smaller.
pub proof fn lemma_pow4_grows(a: nat, b: nat)
    requires
        a <= b,
    ensures
        pow4(a) <= pow4(b),
    decreases b,
{
    if a < b {
        lemma_pow4_grows(a, (b - 1) as nat);
    }
}

/// The sum of `value` over the first `cols` cells of row `r`.
pub open spec fn row_sum(r: int, cols: nat, value: spec_fn(int, int) -> nat) -> nat
    decreases cols,
{
    if cols == 0 {
        0
    } else {
        row_sum(r, (cols - 1) as nat, value) + value(r, cols - 1)
    }
}

/// The sum of `value` over the cells of the first `rows` rows and the
/// first `cols` columns.
pub open spec fn grid_sum(rows: nat, cols: nat, value: spec_fn(int, int) -> nat) -> nat
    decreases rows,
{
    if rows == 0 {
        0
    } else {
        grid_sum((rows - 1) as nat, cols, value) + row_sum(rows - 1, cols, value)
    }
}

/// The sum over fewer cells of a row is no more.
pub proof fn lemma_row_sum_grows(r: int, k: nat, cols: nat, value: spec_fn(int, int) -> nat)
    requires
        k <= cols,
    ensures
        row_sum(r, k, value) <= row_sum(r, cols, value),
    decreases cols,
{
    if k < cols {
        lemma_row_sum_grows(r, k, (cols - 1) as nat, value);
    }
}

/// The sum over fewer rows is no more.
pub proof fn lemma_grid_sum_grows(k: nat, rows: nat, cols: nat, value: spec_fn(int, int) -> nat)
    requires
        k <= rows,
    ensures
        grid_sum(k, cols, value) <= grid_sum(rows, cols, value),
    decreases rows,
{
    if k < rows {
        lemma_grid_sum_grows(k, (rows - 1) as nat, cols, value);
    }
}

/// For each cell of height zero the number of peaks that can be reached
/// from it, and nothing for any other cell.
pub open spec fn score_of(map: HeightMap) -> spec_fn(int, int) -> nat {
    |r: int, c: int|
        if map.height((r as usize, c as usize)) == 0 {
            map.peaks((r as usize, c as usize)).len()
        } else {
            0nat
        }
}

/// For each cell of height zero the number of ways to climb from it to a
/// peak, and nothing for any other cell.
pub open spec fn rating_of(map: HeightMap) -> spec_fn(int, int) -> nat {
    |r: int, c: int|
        if map.height((r as usize, c as usize)) == 0 {
            map.rating((r as usize, c as usize))
        } else {
            0nat
        }
}

/// The sum, over the cells of height zero, of the number of peaks that can
/// be reached from each.
pub fn part1(map: &HeightMap) -> (sum: usize)
    requires
        map.wf(),
        map.side() * map.side() <= usize::MAX,
        grid_sum(map.side(), map.side(), score_of(*map)) <= usize::MAX,
    ensures
        sum == grid_sum(map.side(), map.side(), score_of(*map)),
{
    let size = map.data.len();
    let ghost value = score_of(*map);
    let mut sum: usize = 0;
    let mut r: usize = 0;
    while r < size
        invariant
            map.wf(),
            size == map.side(),
            size * size <= usize::MAX,
            value == score_of(*map),
            grid_sum(size as nat, size as nat, value) <= usize::MAX,
            r <= size,
            sum == grid_sum(r as nat, size as nat, value),
        decreases size - r,
    {
        let mut c: usize = 0;
        let ghost before = sum;
        while c < size
            invariant
                map.wf(),
                size == map.side(),
                size * size <= usize::MAX,
                value == score_of(*map),
                grid_sum(size as nat, size as nat, value) <= usize::MAX,
                r < size,
                c <= size,
                before == grid_sum(r as nat, size as nat, value),
                sum == before + row_sum(r as int, c as nat, value),
            decreases size - c,
        {
            proof {
                lemma_row_sum_grows(r as int, (c + 1) as nat, size as nat, value);
                lemma_grid_sum_grows((r + 1) as nat, size as nat, size as nat, value);
            }
            if map.index((r, c)) == 0 {
                sum = sum + map.get_score((r, c));
            }
            c += 1;
        }
        r += 1;
    }
    sum
}

/// The sum, over the cells of height zero, of the number of ways to climb
/// from each to a peak.
pub fn part2(map: &HeightMap) -> (sum: usize)
    requires
        map.wf(),
        grid_sum(map.side(), map.side(), rating_of(*map)) <= usize::MAX,
    ensures
        sum == grid_sum(map.side(), map.side(), rating_of(*map)),
{
    let size = map.data.len();
    let ghost value = rating_of(*map);
    let mut sum: usize = 0;
    let mut r: usize = 0;
    while r < size
        invariant
            map.wf(),
            size == map.side(),
            value == rating_of(*map),
            grid_sum(size as nat, size as nat, value) <= usize::MAX,
            r <= size,
            sum == grid_sum(r as nat, size as nat, value),
        decreases size - r,
    {
        let mut c: usize = 0;
        let ghost before = sum;
        while c < size
            invariant
                map.wf(),
                size == map.side(),
                value == rating_of(*map),
                grid_sum(size as nat, size as nat, value) <= usize::MAX,
                r < size,
                c <= size,
                before == grid_sum(r as nat, size as nat, value),
                sum == before + row_sum(r as int, c as nat, value),
            decreases size - c,
        {
            proof {
                lemma_row_sum_grows(r as int, (c + 1) as nat, size as nat, value);
                lemma_grid_sum_grows((r + 1) as nat, size as nat, size as nat, value);
            }
            if map.index((r, c)) == 0 {
                sum = sum + map.get_rating((r, c));
            }
            c += 1;
        }
        r += 1;
    }
    sum
}

/// The heights that the rows of digits show, or nothing where a row holds
/// something else or the rows make no square.
pub fn load_map(rows: &Vec<Vec<char>>) -> (r: Option<HeightMap>)
    ensures
        match r {
            Some(map) => {
                &&& map.wf()
                &&& map.side() == rows@.len()
                &&& forall|i: int, j: int|
                    0 <= i < rows@.len() && 0 <= j < rows@.len() ==> rows@[i]@.len() == rows@.len()
                        && crate::disk::digit_of(#[trigger] rows@[i]@[j]) == Some(
                        map.data@[i]@[j] as u32,
                    )
            },
            None => exists|i: int|
                0 <= i < rows@.len() && (#[trigger] rows@[i]@.len() != rows@.len() || exists|j: int|
                    0 <= j < rows@[i]@.len() && crate::disk::digit_of(#[trigger] rows@[i]@[j])
                        is None),
        },
{
    let size = rows.len();
    let mut data: Vec<Vec<u8>> = Vec::new();
    let mut i: usize = 0;
    while i < size
        invariant
            size == rows@.len(),
            i <= size,
            data@.len() == i,
            forall|r: int| 0 <= r < i ==> (#[trigger] data@[r])@.len() == size && rows@[r]@.len()
                == size,
            forall|r: int, c: int|
                0 <= r < i && 0 <= c < size ==> (#[trigger] data@[r]@[c]) <= PEAK
                    && crate::disk::digit_of(rows@[r]@[c]) == Some(data@[r]@[c] as u32),
        decreases size - i,
    {
        let row = &rows[i];
        if row.len() != size {
            return None;
        }
        let mut line: Vec<u8> = Vec::new();
        let mut j: usize = 0;
        while j < size
            invariant
                size == rows@.len(),
                i < size,
                row@ == rows@[i as int]@,
                row@.len() == size,
                j <= size,
                line@.len() == j,
                forall|c: int|
                    0 <= c < j ==> (#[trigger] line@[c]) <= PEAK && crate::disk::digit_of(row@[c])
                        == Some(line@[c] as u32),
            decreases size - j,
        {
            match crate::disk::process_char(row[j]) {
                Some(d) => {
                    line.push(d as u8);
                },
                None => {
                    return None;
                },
            }
            j += 1;
        }
        data.push(line);
        i += 1;
    }
    let map = HeightMap { data };
    proof {
        assert forall|a: int, b: int|
            0 <= a < rows@.len() && 0 <= b < rows@.len() implies rows@[a]@.len() == rows@.len()
            && crate::disk::digit_of(#[trigger] rows@[a]@[b]) == Some(map.data@[a]@[b] as u32) by {
            assert(data@[a]@[b] <= PEAK);
        }
    }
    Some(map)
}

} // verus!
