use vstd::prelude::*;
use crate::patrol::bitset::reads_before;
use crate::patrol::direction::Direction;
use crate::patrol::guard::{Guard, Position, in_bounds};
use crate::patrol::obstacles::{is_next_obstacle, lemma_next_obstacle_cases, lemma_next_obstacle_is, next_obstacle};

verus! {

/// Whether the numbers of `s` grow from each to the next.
pub open spec fn ascending(s: Seq<usize>) -> bool {
    forall|i: int, j: int| 0 <= i < j < s.len() ==> s[i] < s[j]
}

/// The least number of an ascending list that is greater than `x`.
pub fn first_above(list: &Vec<usize>, x: usize) -> (r: Option<usize>)
    requires
        ascending(list@),
    ensures
        match r {
            Some(v) => list@.contains(v) && v > x && forall|w: usize|
                list@.contains(w) && w > x ==> v <= w,
            None => forall|w: usize| list@.contains(w) ==> w <= x,
        },
{
    let mut i: usize = 0;
    while i < list.len()
        invariant
            i <= list.len(),
            ascending(list@),
            forall|j: int| 0 <= j < i ==> list@[j] <= x,
        decreases list.len() - i,
    {
        let v = list[i];
        if v > x {
            proof {
                assert(list@[i as int] == v);
                assert forall|w: usize| list@.contains(w) && w > x implies v <= w by {
                    let j = choose|j: int| 0 <= j < list@.len() && list@[j] == w;
                    if j < i {
                    } else if j > i {
                        assert(list@[i as int] < list@[j]);
                    }
                }
            }
            return Some(v);
        }
        i += 1;
    }
    proof {
        assert forall|w: usize| list@.contains(w) implies w <= x by {
            let j = choose|j: int| 0 <= j < list@.len() && list@[j] == w;
        }
    }
    None
}

/// The greatest number of an ascending list that is less than `x`.
pub fn last_below(list: &Vec<usize>, x: usize) -> (r: Option<usize>)
    requires
        ascending(list@),
    ensures
        match r {
            Some(v) => list@.contains(v) && v < x && forall|w: usize|
                list@.contains(w) && w < x ==> w <= v,
            None => forall|w: usize| list@.contains(w) ==> w >= x,
        },
{
    let mut i: usize = list.len();
    while i > 0
        invariant
            i <= list.len(),
            ascending(list@),
            forall|j: int| i <= j < list.len() ==> list@[j] >= x,
        decreases i,
    {
        i -= 1;
        let v = list[i];
        if v < x {
            proof {
                assert(list@[i as int] == v);
                assert forall|w: usize| list@.contains(w) && w < x implies w <= v by {
                    let j = choose|j: int| 0 <= j < list@.len() && list@[j] == w;
                    if j < i {
                        assert(list@[j] < list@[i as int]);
                    }
                }
            }
            return Some(v);
        }
    }
    proof {
        assert forall|w: usize| list@.contains(w) implies w >= x by {
            let j = choose|j: int| 0 <= j < list@.len() && list@[j] == w;
        }
    }
    None
}

/// The place in an ascending list before which `x` belongs: the numbers
/// before it are less than `x`, the others are not.
pub fn insertion_point(list: &Vec<usize>, x: usize) -> (at: usize)
    requires
        ascending(list@),
    ensures
        at <= list@.len(),
        forall|j: int| 0 <= j < at ==> list@[j] < x,
        forall|j: int| at <= j < list@.len() ==> list@[j] >= x,
{
    let mut i: usize = 0;
    while i < list.len()
        invariant
            i <= list.len(),
            ascending(list@),
            forall|j: int| 0 <= j < i ==> list@[j] < x,
        decreases list.len() - i,
    {
        if list[i] >= x {
            proof {
                assert forall|j: int| i <= j < list@.len() implies list@[j] >= x by {
                    if j > i {
                        assert(list@[i as int] < list@[j]);
                    }
                }
            }
            return i;
        }
        i += 1;
    }
    i
}

/// Whether an ascending list holds `x`.
pub fn holds(list: &Vec<usize>, x: usize) -> (r: bool)
    requires
        ascending(list@),
    ensures
        r == list@.contains(x),
{
    let at = insertion_point(list, x);
    if at < list.len() && list[at] == x {
        true
    } else {
        proof {
            if list@.contains(x) {
                let j = choose|j: int| 0 <= j < list@.len() && list@[j] == x;
                if j > at {
                    assert(list@[at as int] < list@[j]);
                }
            }
        }
        false
    }
}

/// Puts `x` in its place in an ascending list, unless the list holds it.
/// Tells whether the list has grown.
pub fn insert_sorted(list: &mut Vec<usize>, x: usize) -> (added: bool)
    requires
        ascending(old(list)@),
    ensures
        ascending(final(list)@),
        added == !old(list)@.contains(x),
        forall|w: usize| final(list)@.contains(w) <==> old(list)@.contains(w) || w == x,
{
    let at = insertion_point(list, x);
    if at < list.len() && list[at] == x {
        return false;
    }
    proof {
        if list@.contains(x) {
            let j = choose|j: int| 0 <= j < list@.len() && list@[j] == x;
            if j > at {
                assert(list@[at as int] < list@[j]);
            }
        }
    }
    let ghost before = list@;
    list.insert(at, x);
    proof {
        let after = list@;
        assert(after == before.insert(at as int, x));
        assert forall|i: int, j: int| 0 <= i < j < after.len() implies after[i] < after[j] by {
            let a = if i < at { i } else { i - 1 };
            let b = if j < at { j } else { j - 1 };
            if i != at && j != at {
                assert(before[a] < before[b]);
            }
        }
        assert forall|w: usize| after.contains(w) <==> before.contains(w) || w == x by {
            if after.contains(w) {
                let j = choose|j: int| 0 <= j < after.len() && after[j] == w;
                if j < at {
                    assert(before[j] == w);
                } else if j > at {
                    assert(before[j - 1] == w);
                }
            }
            if before.contains(w) {
                let j = choose|j: int| 0 <= j < before.len() && before[j] == w;
                if j < at {
                    assert(after[j] == w);
                } else {
                    assert(after[j + 1] == w);
                }
            }
            if w == x {
                assert(after[at as int] == w);
            }
        }
    }
    true
}

/// Takes `x` out of an ascending list, if the list holds it. Tells whether
/// the list has shrunk.
pub fn remove_sorted(list: &mut Vec<usize>, x: usize) -> (removed: bool)
    requires
        ascending(old(list)@),
    ensures
        ascending(final(list)@),
        removed == old(list)@.contains(x),
        forall|w: usize| final(list)@.contains(w) <==> old(list)@.contains(w) && w != x,
{
    let at = insertion_point(list, x);
    if !(at < list.len() && list[at] == x) {
        proof {
            if list@.contains(x) {
                let j = choose|j: int| 0 <= j < list@.len() && list@[j] == x;
                if j > at {
                    assert(list@[at as int] < list@[j]);
                }
            }
        }
        return false;
    }
    let ghost before = list@;
    list.remove(at);
    proof {
        let after = list@;
        assert(after == before.remove(at as int));
        assert forall|i: int, j: int| 0 <= i < j < after.len() implies after[i] < after[j] by {
            let a = if i < at { i } else { i + 1 };
            let b = if j < at { j } else { j + 1 };
            assert(before[a] < before[b]);
        }
        assert forall|w: usize| after.contains(w) <==> before.contains(w) && w != x by {
            if after.contains(w) {
                let j = choose|j: int| 0 <= j < after.len() && after[j] == w;
                let a = if j < at { j } else { j + 1 };
                assert(before[a] == w);
                if a < at {
                    assert(before[a] < before[at as int]);
                } else {
                    assert(before[at as int] < before[a]);
                }
            }
            if before.contains(w) && w != x {
                let j = choose|j: int| 0 <= j < before.len() && before[j] == w;
                if j < at {
                    assert(after[j] == w);
                } else {
                    assert(after[j - 1] == w);
                }
            }
        }
    }
    true
}

/// The obstacles of a grid, listed for each row by their columns and for
/// each column by their rows, in ascending order.
#[derive(Debug)]
pub struct ObstacleIndex {
    size: usize,
    rows: Vec<Vec<usize>>,
    cols: Vec<Vec<usize>>,
}

impl View for ObstacleIndex {
    type V = Set<Position>;

    closed spec fn view(&self) -> Set<Position> {
        Set::new(
            |p: Position| p.0 < self.size && p.1 < self.size && self.rows@[p.0 as int]@.contains(p.1),
        )
    }
}

impl ObstacleIndex {
    /// The side of the grid.
    pub closed spec fn side(&self) -> usize {
        self.size
    }

    /// There is a list for each row and each column, the lists are
    /// ascending, and the two sets of lists tell of the same cells.
    pub closed spec fn wf(&self) -> bool {
        &&& self.rows@.len() == self.size
        &&& self.cols@.len() == self.size
        &&& forall|r: int| 0 <= r < self.size ==> ascending(#[trigger] self.rows@[r]@)
        &&& forall|c: int| 0 <= c < self.size ==> ascending(#[trigger] self.cols@[c]@)
        &&& forall|r: int, x: usize|
            0 <= r < self.size && (#[trigger] self.rows@[r]@.contains(x)) ==> x < self.size
        &&& forall|c: int, x: usize|
            0 <= c < self.size && (#[trigger] self.cols@[c]@.contains(x)) ==> x < self.size
        &&& forall|r: usize, c: usize|
            r < self.size && c < self.size ==> (#[trigger] self.rows@[r as int]@.contains(c)
                <==> #[trigger] self.cols@[c as int]@.contains(r))
    }

    /// Every obstacle of the index is a cell of the grid.
    pub proof fn lemma_members_in_bounds(&self)
        ensures
            forall|p: Position| self@.contains(p) ==> in_bounds(self.side(), p),
    {
    }

    /// The index of a grid of side `size` without obstacles.
    pub fn new(size: usize) -> (index: ObstacleIndex)
        ensures
            index.wf(),
            index.side() == size,
            index@ == Set::<Position>::empty(),
    {
        let mut rows: Vec<Vec<usize>> = Vec::new();
        let mut cols: Vec<Vec<usize>> = Vec::new();
        let mut i: usize = 0;
        while i < size
            invariant
                i <= size,
                rows@.len() == i,
                cols@.len() == i,
                forall|r: int| 0 <= r < i ==> (#[trigger] rows@[r])@.len() == 0,
                forall|c: int| 0 <= c < i ==> (#[trigger] cols@[c])@.len() == 0,
            decreases size - i,
        {
            rows.push(Vec::new());
            cols.push(Vec::new());
            i += 1;
        }
        let index = ObstacleIndex { size, rows, cols };
        proof {
            assert(index@ =~= Set::<Position>::empty());
        }
        index
    }

    /// The side of the grid.
    pub fn size(&self) -> (n: usize)
        ensures
            n == self.side(),
    {
        self.size
    }

    /// Whether an obstacle stands on `pos`.
    pub fn contains(&self, pos: Position) -> (r: bool)
        requires
            self.wf(),
        ensures
            r == self@.contains(pos),
    {
        if pos.0 < self.size && pos.1 < self.size {
            holds(&self.rows[pos.0], pos.1)
        } else {
            false
        }
    }

    /// Puts an obstacle on `pos`, unless one stands there. Tells whether
    /// one was put.
    pub fn insert(&mut self, pos: Position) -> (added: bool)
        requires
            old(self).wf(),
            in_bounds(old(self).side(), pos),
        ensures
            final(self).wf(),
            final(self).side() == old(self).side(),
            final(self)@ == old(self)@.insert(pos),
            added == !old(self)@.contains(pos),
    {
        let added = insert_sorted(&mut self.rows[pos.0], pos.1);
        let also = insert_sorted(&mut self.cols[pos.1], pos.0);
        proof {
            assert(self@ =~= old(self)@.insert(pos));
        }
        added
    }

    /// Takes the obstacle on `pos` away, if one stands there. Tells whether
    /// one was taken.
    pub fn remove(&mut self, pos: Position) -> (removed: bool)
        requires
            old(self).wf(),
        ensures
            final(self).wf(),
            final(self).side() == old(self).side(),
            final(self)@ == old(self)@.remove(pos),
            removed == old(self)@.contains(pos),
    {
        if !(pos.0 < self.size && pos.1 < self.size) {
            proof {
                assert(self@ =~= old(self)@.remove(pos));
            }
            return false;
        }
        let removed = remove_sorted(&mut self.rows[pos.0], pos.1);
        let also = remove_sorted(&mut self.cols[pos.1], pos.0);
        proof {
            assert(self@ =~= old(self)@.remove(pos));
        }
        removed
    }

    /// The obstacles in reading order: by row, and within a row by column.
    pub fn to_vec(&self) -> (cells: Vec<Position>)
        requires
            self.wf(),
        ensures
            cells@.to_set() == self@,
            forall|i: int, j: int|
                0 <= i < j < cells@.len() ==> reads_before(#[trigger] cells@[i], #[trigger] cells@[j]),
    {
        let mut cells: Vec<Position> = Vec::new();
        let mut r: usize = 0;
        while r < self.size
            invariant
                self.wf(),
                r <= self.size,
                forall|p: Position| cells@.contains(p) <==> self@.contains(p) && p.0 < r,
                forall|i: int, j: int|
                    0 <= i < j < cells@.len() ==> reads_before(
                        #[trigger] cells@[i],
                        #[trigger] cells@[j],
                    ),
            decreases self.size - r,
        {
            let row = &self.rows[r];
            let mut k: usize = 0;
            while k < row.len()
                invariant
                    self.wf(),
                    r < self.size,
                    row@ == self.rows@[r as int]@,
                    k <= row.len(),
                    forall|p: Position|
                        cells@.contains(p) <==> self@.contains(p) && (p.0 < r || (p.0 == r
                            && exists|m: int| 0 <= m < k && row@[m] == p.1)),
                    forall|i: int, j: int|
                        0 <= i < j < cells@.len() ==> reads_before(
                            #[trigger] cells@[i],
                            #[trigger] cells@[j],
                        ),
                decreases row.len() - k,
            {
                let c = row[k];
                let ghost before = cells@;
                proof {
                    assert(row@.contains(c));
                    assert(self.rows@[r as int]@.contains(c));
                }
                cells.push((r, c));
                proof {
                    assert(cells@ == before.push((r, c)));
                    assert forall|p: Position|
                        cells@.contains(p) <==> self@.contains(p) && (p.0 < r || (p.0 == r
                            && exists|m: int| 0 <= m < k + 1 && row@[m] == p.1)) by {
                        if cells@.contains(p) {
                            let i = choose|i: int| 0 <= i < cells@.len() && cells@[i] == p;
                            if i < before.len() {
                                assert(before[i] == p);
                                assert(before.contains(p));
                                if p.0 == r {
                                    let m = choose|m: int| 0 <= m < k && row@[m] == p.1;
                                    assert(0 <= m < k + 1 && row@[m] == p.1);
                                }
                            } else {
                                assert(row@[k as int] == p.1);
                            }
                        }
                        if self@.contains(p) && (p.0 < r || (p.0 == r && exists|m: int|
                            0 <= m < k + 1 && row@[m] == p.1)) {
                            if p.0 == r {
                                let m = choose|m: int| 0 <= m < k + 1 && row@[m] == p.1;
                                if m == k {
                                    assert(cells@[before.len() as int] == p);
                                } else {
                                    assert(before.contains(p));
                                    let i = choose|i: int| 0 <= i < before.len() && before[i] == p;
                                    assert(cells@[i] == p);
                                }
                            } else {
                                assert(before.contains(p));
                                let i = choose|i: int| 0 <= i < before.len() && before[i] == p;
                                assert(cells@[i] == p);
                            }
                        }
                    }
                    assert forall|i: int, j: int| 0 <= i < j < cells@.len() implies reads_before(
                        #[trigger] cells@[i],
                        #[trigger] cells@[j],
                    ) by {
                        if j == before.len() {
                            assert(before.contains(before[i]));
                            if before[i].0 == r {
                                let m = choose|m: int| 0 <= m < k && row@[m] == before[i].1;
                                assert(row@[m] < row@[k as int]);
                            }
                        } else {
                            assert(reads_before(before[i], before[j]));
                        }
                    }
                }
                k += 1;
            }
            proof {
                assert forall|p: Position| cells@.contains(p) <==> self@.contains(p) && p.0 < r
                    + 1 by {
                    if self@.contains(p) && p.0 == r {
                        let m = choose|m: int| 0 <= m < row@.len() && row@[m] == p.1;
                        assert(0 <= m < k && row@[m] == p.1);
                    }
                }
            }
            r += 1;
        }
        proof {
            assert(cells@.to_set() =~= self@);
        }
        cells
    }

    /// The index of the obstacles of `obstacles` on a grid of side `size`.
    pub fn from_obstacles(size: usize, obstacles: &Vec<Position>) -> (index: ObstacleIndex)
        requires
            forall|i: int| 0 <= i < obstacles@.len() ==> in_bounds(size, #[trigger] obstacles@[i]),
        ensures
            index.wf(),
            index.side() == size,
            index@ == obstacles@.to_set(),
    {
        let mut index = ObstacleIndex::new(size);
        let mut i: usize = 0;
        proof {
            assert(obstacles@.subrange(0, 0).to_set() =~= Set::<Position>::empty());
        }
        while i < obstacles.len()
            invariant
                i <= obstacles.len(),
                index.wf(),
                index.side() == size,
                index@ == obstacles@.subrange(0, i as int).to_set(),
                forall|j: int| 0 <= j < obstacles@.len() ==> in_bounds(size, #[trigger] obstacles@[j]),
            decreases obstacles.len() - i,
        {
            index.insert(obstacles[i]);
            proof {
                let before = obstacles@.subrange(0, i as int);
                assert(obstacles@.subrange(0, i + 1) =~= before.push(obstacles@[i as int]));
                before.lemma_push_to_set_commute(obstacles@[i as int]);
            }
            i += 1;
        }
        proof {
            assert(obstacles@.subrange(0, i as int) =~= obstacles@);
        }
        index
    }

    /// The nearest obstacle strictly ahead of the guard, in its row when it
    /// faces left or right and in its column when it faces up or down.
    pub fn next_obstacle(&self, guard: &Guard) -> (r: Option<Position>)
        requires
            self.wf(),
            in_bounds(self.side(), guard.pos),
        ensures
            r == next_obstacle(self@, *guard),
            r is Some ==> is_next_obstacle(self@, *guard, r->Some_0),
    {
        let found: Option<Position> = match guard.direction {
            Direction::Left => match last_below(&self.rows[guard.pos.0], guard.pos.1) {
                Some(c) => Some((guard.pos.0, c)),
                None => None,
            },
            Direction::Right => match first_above(&self.rows[guard.pos.0], guard.pos.1) {
                Some(c) => Some((guard.pos.0, c)),
                None => None,
            },
            Direction::Up => match last_below(&self.cols[guard.pos.1], guard.pos.0) {
                Some(r) => Some((r, guard.pos.1)),
                None => None,
            },
            Direction::Down => match first_above(&self.cols[guard.pos.1], guard.pos.0) {
                Some(r) => Some((r, guard.pos.1)),
                None => None,
            },
        };
        proof {
            lemma_next_obstacle_cases(self@, *guard);
            match found {
                Some(b) => {
                    assert(self@.contains(b));
                    assert forall|q: Position| self@.contains(q) && guard.ahead(q) implies guard.distance(
                        b,
                    ) <= guard.distance(q) by {
                        assert(self.rows@[q.0 as int]@.contains(q.1));
                        assert(self.cols@[q.1 as int]@.contains(q.0));
                    }
                    lemma_next_obstacle_is(self@, *guard, b);
                },
                None => {
                    assert forall|q: Position| self@.contains(q) implies !guard.ahead(q) by {
                        assert(self.rows@[q.0 as int]@.contains(q.1));
                        assert(self.cols@[q.1 as int]@.contains(q.0));
                    }
                },
            }
        }
        found
    }
}

} // verus!
