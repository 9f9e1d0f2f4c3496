use vstd::prelude::*;
use crate::patrol::direction::Direction;
use crate::patrol::guard::{Guard, in_bounds};

verus! {

/// Which of the four directions a guard has faced on one cell.
#[derive(Clone, Copy, Debug)]
pub struct Facings {
    pub up: bool,
    pub down: bool,
    pub left: bool,
    pub right: bool,
}

impl Facings {
    /// Whether direction `d` is recorded.
    pub open spec fn has(self, d: Direction) -> bool {
        match d {
            Direction::Up => self.up,
            Direction::Down => self.down,
            Direction::Left => self.left,
            Direction::Right => self.right,
        }
    }

    /// No direction recorded.
    pub fn none() -> (f: Facings)
        ensures
            forall|d: Direction| !f.has(d),
    {
        Facings { up: false, down: false, left: false, right: false }
    }

    /// Whether direction `d` is recorded.
    pub fn get(&self, d: Direction) -> (r: bool)
        ensures
            r == self.has(d),
    {
        match d {
            Direction::Up => self.up,
            Direction::Down => self.down,
            Direction::Left => self.left,
            Direction::Right => self.right,
        }
    }

    /// The same record with direction `d` added.
    pub fn with(self, d: Direction) -> (f: Facings)
        ensures
            forall|e: Direction| f.has(e) == (e == d || self.has(e)),
    {
        match d {
            Direction::Up => Facings { up: true, ..self },
            Direction::Down => Facings { down: true, ..self },
            Direction::Left => Facings { left: true, ..self },
            Direction::Right => Facings { right: true, ..self },
        }
    }
}

/// The set of guard states seen during one run, as a dense table with one
/// record of facings per cell.
#[derive(Clone, Debug)]
pub struct GuardSet {
    size: usize,
    data: Vec<Vec<Facings>>,
}

impl View for GuardSet {
    type V = Set<Guard>;

    closed spec fn view(&self) -> Set<Guard> {
        Set::new(
            |g: Guard|
                g.pos.0 < self.size && g.pos.1 < self.size && self.data@[g.pos.0 as int]@[g.pos.1 as int].has(
                    g.direction,
                ),
        )
    }
}

impl GuardSet {
    /// The side of the grid whose states the set can hold.
    pub closed spec fn side(&self) -> usize {
        self.size
    }

    /// The table has `side` rows of `side` records.
    pub closed spec fn wf(&self) -> bool {
        &&& self.data@.len() == self.size
        &&& forall|r: int| 0 <= r < self.size ==> (#[trigger] self.data@[r])@.len() == self.size
    }

    /// Every member of the set stands on a cell of the grid.
    pub proof fn lemma_members_in_bounds(&self)
        ensures
            forall|g: Guard| self@.contains(g) ==> in_bounds(self.side(), g.pos),
    {
    }

    /// An empty set over a grid of side `size`.
    pub fn new(size: usize) -> (s: GuardSet)
        ensures
            s.wf(),
            s.side() == size,
            s@ == Set::<Guard>::empty(),
    {
        let mut data: Vec<Vec<Facings>> = Vec::new();
        let mut r: usize = 0;
        while r < size
            invariant
                r <= size,
                data@.len() == r,
                forall|i: int| 0 <= i < r ==> (#[trigger] data@[i])@.len() == size,
                forall|i: int, j: int, d: Direction|
                    0 <= i < r && 0 <= j < size ==> !(#[trigger] data@[i]@[j].has(d)),
            decreases size - r,
        {
            let mut row: Vec<Facings> = Vec::new();
            let mut c: usize = 0;
            while c < size
                invariant
                    c <= size,
                    row@.len() == c,
                    forall|j: int, d: Direction| 0 <= j < c ==> !(#[trigger] row@[j].has(d)),
                decreases size - c,
            {
                row.push(Facings::none());
                c += 1;
            }
            data.push(row);
            r += 1;
        }
        let s = GuardSet { size, data };
        proof {
            assert(s@ =~= Set::<Guard>::empty());
        }
        s
    }

    /// Whether `guard` is a member. A state outside the grid never is.
    pub fn contains(&self, guard: &Guard) -> (r: bool)
        requires
            self.wf(),
        ensures
            r == self@.contains(*guard),
    {
        if guard.pos.0 < self.size && guard.pos.1 < self.size {
            self.data[guard.pos.0][guard.pos.1].get(guard.direction)
        } else {
            false
        }
    }

    /// Adds `guard` to the set; a state that is already a member stays one.
    pub fn insert(&mut self, guard: &Guard)
        requires
            old(self).wf(),
            in_bounds(old(self).side(), guard.pos),
        ensures
            final(self).wf(),
            final(self).side() == old(self).side(),
            final(self)@ == old(self)@.insert(*guard),
    {
        let seen = self.data[guard.pos.0][guard.pos.1];
        self.data[guard.pos.0][guard.pos.1] = seen.with(guard.direction);
        proof {
            assert(self@ =~= old(self)@.insert(*guard));
        }
    }
}

} // verus!
