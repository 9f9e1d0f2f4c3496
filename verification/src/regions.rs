use vstd::prelude::*;
use crate::patrol::bitset::BitSet;
use crate::patrol::guard::Position;
use crate::patrol::load::is_square;

verus! {

/// A place on the map of a garden, by its column and its row.
pub type Coord = (isize, isize);

/// What stands for the plant of a place outside the map.
pub const NO_PLANT: char = '\0';

/// The map of a garden: a square of plots, each with the letter of its
/// plant.
#[derive(Debug)]
pub struct Data {
    pub data: Vec<Vec<char>>,
}

impl Data {
    /// The side of the map.
    pub open spec fn side(&self) -> int {
        self.data@.len() as int
    }

    /// The map is square and no longer than the machine can count with a
    /// sign.
    pub open spec fn wf(&self) -> bool {
        is_square(self.data@) && self.data@.len() < isize::MAX
    }

    /// Whether `c` is a plot of the map.
    pub open spec fn on_map(&self, c: Coord) -> bool {
        0 <= c.0 < self.side() && 0 <= c.1 < self.side()
    }

    /// The plant on plot `c`; `NO_PLANT` outside the map.
    pub open spec fn plant(&self, c: Coord) -> char {
        if self.on_map(c) {
            self.data@[c.1 as int]@[c.0 as int]
        } else {
            NO_PLANT
        }
    }

    /// The plant on plot `index`; `NO_PLANT` outside the map.
    pub fn index(&self, index: Coord) -> (plant: char)
        requires
            self.wf(),
        ensures
            plant == self.plant(index),
    {
        let size = self.data.len();
        if index.0 < 0 || index.1 < 0 || index.0 >= size as isize || index.1 >= size as isize {
            return NO_PLANT;
        }
        self.data[index.1 as usize][index.0 as usize]
    }

    /// The plot next to `c` in one of the four directions, numbered left,
    /// up, right, down.
    pub open spec fn beside(c: Coord, direction: int) -> (int, int) {
        if direction == 0 {
            (c.0 - 1, c.1 as int)
        } else if direction == 1 {
            (c.0 as int, c.1 - 1)
        } else if direction == 2 {
            (c.0 + 1, c.1 as int)
        } else {
            (c.0 as int, c.1 + 1)
        }
    }

    /// Whether `b` is a plot of the map next to the plot `a` of the map,
    /// with the same plant.
    pub open spec fn joins(&self, a: Coord, b: Coord) -> bool {
        &&& self.on_map(a)
        &&& self.on_map(b)
        &&& self.plant(a) == self.plant(b)
        &&& exists|d: int| 0 <= d < 4 && #[trigger] Data::beside(a, d) == (b.0 as int, b.1 as int)
    }

    /// The plots of the map next to `coord` that bear the same plant: the
    /// one to the left, the one above, the one to the right and the one
    /// below, each where there is such a plot.
    pub fn get_sourounding(&self, coord: Coord) -> (result: Vec<Coord>)
        requires
            self.wf(),
            self.on_map(coord),
        ensures
            forall|q: Coord| result@.contains(q) <==> self.joins(coord, q),
            result@.len() <= 4,
    {
        let size = self.data.len() as isize;
        let mut result: Vec<Coord> = Vec::new();
        let value = self.index(coord);
        let left = coord.0 > 0 && self.index((coord.0 - 1, coord.1)) == value;
        push_if(&mut result, left, (coord.0 - 1, coord.1));
        let up = coord.1 > 0 && self.index((coord.0, coord.1 - 1)) == value;
        push_if(&mut result, up, (coord.0, coord.1 - 1));
        let right = coord.0 < size - 1 && self.index((coord.0 + 1, coord.1)) == value;
        push_if(&mut result, right, (coord.0 + 1, coord.1));
        let down = coord.1 < size - 1 && self.index((coord.0, coord.1 + 1)) == value;
        push_if(&mut result, down, (coord.0, coord.1 + 1));
        proof {
            let at_left: Coord = ((coord.0 - 1) as isize, coord.1);
            let at_up: Coord = (coord.0, (coord.1 - 1) as isize);
            let at_right: Coord = ((coord.0 + 1) as isize, coord.1);
            let at_down: Coord = (coord.0, (coord.1 + 1) as isize);
            assert forall|q: Coord| result@.contains(q) <==> self.joins(coord, q) by {
                assert(result@.contains(q) <==> (left && q == at_left) || (up && q == at_up) || (
                right && q == at_right) || (down && q == at_down));
                if self.joins(coord, q) {
                    let d = choose|d: int|
                        0 <= d < 4 && #[trigger] Data::beside(coord, d) == (q.0 as int, q.1 as int);
                    if d == 0 {
                        assert(q == at_left);
                    } else if d == 1 {
                        assert(q == at_up);
                    } else if d == 2 {
                        assert(q == at_right);
                    } else {
                        assert(q == at_down);
                    }
                }
                if left && q == at_left {
                    assert(Data::beside(coord, 0) == (q.0 as int, q.1 as int));
                }
                if up && q == at_up {
                    assert(Data::beside(coord, 1) == (q.0 as int, q.1 as int));
                }
                if right && q == at_right {
                    assert(Data::beside(coord, 2) == (q.0 as int, q.1 as int));
                }
                if down && q == at_down {
                    assert(Data::beside(coord, 3) == (q.0 as int, q.1 as int));
                }
            }
        }
        result
    }
}

/// Puts `c` at the end of the list where `wanted` holds.
fn push_if(list: &mut Vec<Coord>, wanted: bool, c: Coord)
    ensures
        forall|q: Coord| final(list)@.contains(q) <==> old(list)@.contains(q) || (wanted && q == c),
        final(list)@.len() <= old(list)@.len() + 1,
        final(list)@.len() >= old(list)@.len(),
        forall|i: int| 0 <= i < old(list)@.len() ==> final(list)@[i] == old(list)@[i],
        wanted ==> final(list)@ == old(list)@.push(c),
        !wanted ==> final(list)@ == old(list)@,
{
    if wanted {
        list.push(c);
        proof {
            let before = old(list)@;
            assert forall|q: Coord| list@.contains(q) <==> before.contains(q) || q == c by {
                if list@.contains(q) {
                    let i = choose|i: int| 0 <= i < list@.len() && list@[i] == q;
                    if i < before.len() {
                        assert(before[i] == q);
                    }
                }
                if before.contains(q) {
                    let i = choose|i: int| 0 <= i < before.len() && before[i] == q;
                    assert(list@[i] == q);
                }
                if q == c {
                    assert(list@[before.len() as int] == q);
                }
            }
        }
    }
}

/// Which of the four plots next to a plot bear the same plant as the plot.
/// A plot outside the map counts as bearing `NO_PLANT`.
#[derive(Clone, Copy, Debug, PartialEq, Eq, Structural)]
pub struct Neighbors {
    pub up: bool,
    pub down: bool,
    pub left: bool,
    pub right: bool,
}

impl Data {
    /// Whether the plots of the row are plots of the map, each next to the
    /// one before it and with the same plant.
    pub open spec fn is_path(&self, path: Seq<Coord>) -> bool {
        &&& path.len() >= 1
        &&& self.on_map(path[0])
        &&& forall|i: int| 0 <= i < path.len() - 1 ==> self.joins(#[trigger] path[i], path[i + 1])
    }

    /// Whether plot `b` can be reached from plot `a` over plots with the
    /// same plant, each next to the one before it.
    pub open spec fn connected(&self, a: Coord, b: Coord) -> bool {
        exists|path: Seq<Coord>| #[trigger] self.is_path(path) && path[0] == a && path.last() == b
    }

    /// The flags of the neighbours of plot `c`.
    pub open spec fn neighbors(&self, c: Coord) -> Neighbors {
        Neighbors {
            up: self.plant(c) == self.plant((c.0, (c.1 - 1) as isize)),
            down: self.plant(c) == self.plant((c.0, (c.1 + 1) as isize)),
            left: self.plant(c) == self.plant(((c.0 - 1) as isize, c.1)),
            right: self.plant(c) == self.plant(((c.0 + 1) as isize, c.1)),
        }
    }

    /// A plot of the map can be reached from itself.
    pub proof fn lemma_connected_self(&self, a: Coord)
        requires
            self.on_map(a),
        ensures
            self.connected(a, a),
    {
        let path = seq![a];
        assert(self.is_path(path));
        assert(path[0] == a && path.last() == a);
    }

    /// What joins a plot that can be reached can be reached.
    pub proof fn lemma_connected_step(&self, a: Coord, p: Coord, q: Coord)
        requires
            self.connected(a, p),
            self.joins(p, q),
        ensures
            self.connected(a, q),
    {
        let path = choose|path: Seq<Coord>|
            #[trigger] self.is_path(path) && path[0] == a && path.last() == p;
        let longer = path.push(q);
        assert forall|i: int| 0 <= i < longer.len() - 1 implies self.joins(
            #[trigger] longer[i],
            longer[i + 1],
        ) by {
            if i < path.len() - 1 {
                assert(self.joins(path[i], path[i + 1]));
            }
        }
        assert(self.is_path(longer));
        assert(longer[0] == a && longer.last() == q);
    }

    /// A set of plots that holds a plot and, with each plot, what joins it,
    /// holds every plot that can be reached from the first.
    pub proof fn lemma_closed_set(&self, plots: Set<Coord>, path: Seq<Coord>)
        requires
            self.is_path(path),
            plots.contains(path[0]),
            forall|p: Coord, q: Coord| plots.contains(p) && #[trigger] self.joins(p, q) ==> plots.contains(q),
        ensures
            plots.contains(path.last()),
        decreases path.len(),
    {
        if path.len() > 1 {
            let front = path.drop_last();
            assert forall|i: int| 0 <= i < front.len() - 1 implies self.joins(
                #[trigger] front[i],
                front[i + 1],
            ) by {
                assert(self.joins(path[i], path[i + 1]));
            }
            self.lemma_closed_set(plots, front);
            assert(self.joins(path[path.len() - 2], path[path.len() - 1]));
        }
    }

    /// Whether the plant of plot `coord` stands to its left as well.
    pub fn neighbor_left(&self, coord: Coord) -> (r: bool)
        requires
            self.wf(),
            self.on_map(coord),
        ensures
            r == self.neighbors(coord).left,
    {
        self.index(coord) == self.index((coord.0 - 1, coord.1))
    }

    /// Whether the plant of plot `coord` stands to its right as well.
    pub fn neighbor_right(&self, coord: Coord) -> (r: bool)
        requires
            self.wf(),
            self.on_map(coord),
        ensures
            r == self.neighbors(coord).right,
    {
        self.index(coord) == self.index((coord.0 + 1, coord.1))
    }

    /// Whether the plant of plot `coord` stands above it as well.
    pub fn neighbor_up(&self, coord: Coord) -> (r: bool)
        requires
            self.wf(),
            self.on_map(coord),
        ensures
            r == self.neighbors(coord).up,
    {
        self.index(coord) == self.index((coord.0, coord.1 - 1))
    }

    /// Whether the plant of plot `coord` stands below it as well.
    pub fn neighbor_down(&self, coord: Coord) -> (r: bool)
        requires
            self.wf(),
            self.on_map(coord),
        ensures
            r == self.neighbors(coord).down,
    {
        self.index(coord) == self.index((coord.0, coord.1 + 1))
    }
}

/// The cell that stands for a plot of the map in a set of cells.
pub open spec fn cell_of(c: Coord) -> Position {
    (c.0 as usize, c.1 as usize)
}

/// A region of a garden: plots with the same plant that hang together.
#[derive(Debug)]
pub struct Region {
    pub area: u32,
    pub points: Vec<(Coord, Neighbors)>,
}

/// The plot that a cell of a set of cells stands for.
pub open spec fn plot_of(p: Position) -> Coord {
    (p.0 as isize, p.1 as isize)
}

/// Whether the list holds plot `c`.
pub open spec fn listed(points: Seq<(Coord, Neighbors)>, c: Coord) -> bool {
    exists|k: int| 0 <= k < points.len() && (#[trigger] points[k]).0 == c
}

/// Whether plot `q` waits in the queue at place `head` or behind it.
pub open spec fn waiting(queue: Seq<Coord>, head: int, q: Coord) -> bool {
    exists|m: int| head <= m < queue.len() && #[trigger] queue[m] == q
}

/// Whether no plot stands twice in the list.
pub open spec fn distinct(points: Seq<(Coord, Neighbors)>) -> bool {
    forall|i: int, j: int|
        0 <= i < j < points.len() ==> (#[trigger] points[i]).0 != (#[trigger] points[j]).0
}

/// Whether every plot in the queue can be reached from `coord`.
pub open spec fn all_reached(data: &Data, coord: Coord, queue: Seq<Coord>) -> bool {
    forall|k: int| 0 <= k < queue.len() ==> data.connected(coord, #[trigger] queue[k])
}

/// Whether the plots listed can be reached from `coord` and are listed
/// once each, with the flags of their neighbours.
pub open spec fn well_listed(data: &Data, coord: Coord, points: Seq<(Coord, Neighbors)>) -> bool {
    &&& distinct(points)
    &&& forall|k: int|
        0 <= k < points.len() ==> data.connected(coord, (#[trigger] points[k]).0) && points[k].1
            == data.neighbors(points[k].0)
}

/// Whether what joins a plot listed is listed or waits in the queue.
pub open spec fn closed_up(
    data: &Data,
    points: Seq<(Coord, Neighbors)>,
    queue: Seq<Coord>,
    head: int,
) -> bool {
    forall|k: int, q: Coord|
        0 <= k < points.len() && #[trigger] data.joins(points[k].0, q) ==> listed(points, q)
            || waiting(queue, head, q)
}

/// What holds while a region is gathered: the plots in the queue and the
/// plots listed can be reached from `coord`, the plots listed are listed
/// once and with the flags of their neighbours, what joins a plot listed is
/// listed or waits in the queue, and so does `coord`.
#[verifier::opaque]
pub open spec fn search_inv(
    data: &Data,
    coord: Coord,
    points: Seq<(Coord, Neighbors)>,
    queue: Seq<Coord>,
    head: int,
) -> bool {
    &&& 0 <= head <= queue.len()
    &&& all_reached(data, coord, queue)
    &&& well_listed(data, coord, points)
    &&& closed_up(data, points, queue, head)
    &&& listed(points, coord) || waiting(queue, head, coord)
}

/// The cells of the plots of the map that are listed.
pub open spec fn cells_of(data: &Data, points: Seq<(Coord, Neighbors)>) -> Set<Position> {
    Set::new(
        |p: Position| p.0 < data.side() && p.1 < data.side() && listed(points, plot_of(p)),
    )
}

/// A list with one more plot lists what it listed and the plot.
pub proof fn lemma_listed_push(points: Seq<(Coord, Neighbors)>, c: Coord, flags: Neighbors, q: Coord)
    ensures
        listed(points.push((c, flags)), q) <==> listed(points, q) || q == c,
{
    let longer = points.push((c, flags));
    if listed(points, q) {
        let k = choose|k: int| 0 <= k < points.len() && (#[trigger] points[k]).0 == q;
        assert(longer[k].0 == q);
    }
    if q == c {
        assert(longer[points.len() as int].0 == q);
    }
    if listed(longer, q) {
        let k = choose|k: int| 0 <= k < longer.len() && (#[trigger] longer[k]).0 == q;
        if k < points.len() {
            assert(points[k].0 == q);
        }
    }
}

/// Passing over a plot of the queue that is listed keeps what holds while
/// a region is gathered.
pub proof fn lemma_search_skip(
    data: &Data,
    coord: Coord,
    points: Seq<(Coord, Neighbors)>,
    queue: Seq<Coord>,
    head: int,
)
    requires
        search_inv(data, coord, points, queue, head),
        head < queue.len(),
        listed(points, queue[head]),
    ensures
        search_inv(data, coord, points, queue, head + 1),
{
    reveal(search_inv);
    assert forall|k: int, q: Coord|
        0 <= k < points.len() && #[trigger] data.joins(points[k].0, q) implies listed(points, q)
        || waiting(queue, head + 1, q) by {
        if !listed(points, q) {
            assert(waiting(queue, head, q));
            let m = choose|m: int| head <= m < queue.len() && #[trigger] queue[m] == q;
            assert(m != head);
        }
    }
    if !listed(points, coord) {
        let m = choose|m: int| head <= m < queue.len() && #[trigger] queue[m] == coord;
        assert(m != head);
    }
}

/// What joins a plot that can be reached may wait in the queue with the
/// others.
pub proof fn lemma_reached_take(
    data: &Data,
    coord: Coord,
    queue: Seq<Coord>,
    c: Coord,
    near: Seq<Coord>,
)
    requires
        all_reached(data, coord, queue),
        data.connected(coord, c),
        forall|q: Coord| near.contains(q) ==> data.joins(c, q),
    ensures
        all_reached(data, coord, queue + near),
{
    let line = queue + near;
    assert forall|k: int| 0 <= k < line.len() implies data.connected(coord, #[trigger] line[k]) by {
        if k >= queue.len() {
            assert(line[k] == near[k - queue.len()]);
            assert(near.contains(near[k - queue.len()]));
            data.lemma_connected_step(coord, c, line[k]);
        } else {
            assert(line[k] == queue[k]);
        }
    }
}

/// A plot that can be reached and is not listed may be listed with the
/// others.
pub proof fn lemma_well_listed_take(
    data: &Data,
    coord: Coord,
    points: Seq<(Coord, Neighbors)>,
    c: Coord,
)
    requires
        well_listed(data, coord, points),
        data.connected(coord, c),
        !listed(points, c),
    ensures
        well_listed(data, coord, points.push((c, data.neighbors(c)))),
{
    let longer = points.push((c, data.neighbors(c)));
    assert forall|i: int, j: int| 0 <= i < j < longer.len() implies (#[trigger] longer[i]).0 != (
    #[trigger] longer[j]).0 by {
        if j == points.len() {
            assert(longer[i] == points[i]);
            if points[i].0 == c {
                assert(listed(points, c));
            }
        } else {
            assert(longer[i] == points[i]);
            assert(longer[j] == points[j]);
        }
    }
    assert forall|k: int| 0 <= k < longer.len() implies data.connected(
        coord,
        (#[trigger] longer[k]).0,
    ) && longer[k].1 == data.neighbors(longer[k].0) by {
        if k < points.len() {
            assert(longer[k] == points[k]);
        }
    }
}

/// When the plot at the head of the queue is listed and what joins it is
/// put at the end of the queue, what joins a plot listed is still listed
/// or waits in the queue.
pub proof fn lemma_closed_take(
    data: &Data,
    points: Seq<(Coord, Neighbors)>,
    queue: Seq<Coord>,
    head: int,
    flags: Neighbors,
    near: Seq<Coord>,
)
    requires
        0 <= head < queue.len(),
        closed_up(data, points, queue, head),
        forall|q: Coord| data.joins(queue[head], q) ==> near.contains(q),
    ensures
        closed_up(data, points.push((queue[head], flags)), queue + near, head + 1),
{
    let c = queue[head];
    let longer = points.push((c, flags));
    let line = queue + near;
    assert forall|k: int, q: Coord|
        0 <= k < longer.len() && #[trigger] data.joins(longer[k].0, q) implies listed(longer, q)
        || waiting(line, head + 1, q) by {
        lemma_listed_push(points, c, flags, q);
        if k == points.len() {
            assert(longer[k].0 == c);
            assert(near.contains(q));
            let t = choose|t: int| 0 <= t < near.len() && near[t] == q;
            assert(line[queue.len() + t] == q);
        } else {
            assert(longer[k] == points[k]);
            if !listed(points, q) {
                assert(data.joins(points[k].0, q));
                assert(waiting(queue, head, q));
                let m = choose|m: int| head <= m < queue.len() && #[trigger] queue[m] == q;
                if m != head {
                    assert(line[m] == q);
                }
            }
        }
    }
}

/// Listing the plot at the head of the queue, which was not listed, and
/// putting what joins it at the end of the queue keeps what holds while a
/// region is gathered.
pub proof fn lemma_search_take(
    data: &Data,
    coord: Coord,
    points: Seq<(Coord, Neighbors)>,
    queue: Seq<Coord>,
    head: int,
    near: Seq<Coord>,
)
    requires
        search_inv(data, coord, points, queue, head),
        head < queue.len(),
        !listed(points, queue[head]),
        forall|q: Coord| near.contains(q) <==> data.joins(queue[head], q),
    ensures
        search_inv(
            data,
            coord,
            points.push((queue[head], data.neighbors(queue[head]))),
            queue + near,
            head + 1,
        ),
{
    reveal(search_inv);
    let c = queue[head];
    let flags = data.neighbors(c);
    assert(data.connected(coord, queue[head]));
    lemma_reached_take(data, coord, queue, c, near);
    lemma_well_listed_take(data, coord, points, c);
    lemma_closed_take(data, points, queue, head, flags, near);
    lemma_listed_push(points, c, flags, coord);
    if !listed(points, coord) && coord != c {
        let m = choose|m: int| head <= m < queue.len() && #[trigger] queue[m] == coord;
        assert((queue + near)[m] == coord);
    }
}

/// When the queue is at its end, the plots listed are those that can be
/// reached, each listed once and with the flags of its neighbours.
pub proof fn lemma_search_done(
    data: &Data,
    coord: Coord,
    points: Seq<(Coord, Neighbors)>,
    queue: Seq<Coord>,
)
    requires
        search_inv(data, coord, points, queue, queue.len() as int),
    ensures
        distinct(points),
        forall|k: int|
            0 <= k < points.len() ==> data.connected(coord, (#[trigger] points[k]).0) && points[k].1
                == data.neighbors(points[k].0),
        forall|c: Coord| data.connected(coord, c) ==> listed(points, c),
{
    reveal(search_inv);
    let plots = Set::new(|c: Coord| listed(points, c));
    assert(!waiting(queue, queue.len() as int, coord));
    assert forall|p: Coord, q: Coord| plots.contains(p) && #[trigger] data.joins(p, q) implies plots.contains(
        q,
    ) by {
        let k = choose|k: int| 0 <= k < points.len() && (#[trigger] points[k]).0 == p;
        assert(data.joins(points[k].0, q));
        assert(!waiting(queue, queue.len() as int, q));
    }
    assert forall|c: Coord| data.connected(coord, c) implies listed(points, c) by {
        let path = choose|path: Seq<Coord>|
            #[trigger] data.is_path(path) && path[0] == coord && path.last() == c;
        data.lemma_closed_set(plots, path);
    }
}

/// At the start, with `coord` alone in the queue and no plot listed, what
/// holds while a region is gathered holds.
pub proof fn lemma_search_start(data: &Data, coord: Coord)
    requires
        data.on_map(coord),
    ensures
        search_inv(data, coord, Seq::empty(), seq![coord], 0),
        cells_of(data, Seq::empty()) == Set::<Position>::empty(),
{
    reveal(search_inv);
    data.lemma_connected_self(coord);
    assert(seq![coord][0] == coord);
    assert(waiting(seq![coord], 0, coord));
    assert(cells_of(data, Seq::empty()) =~= Set::<Position>::empty());
}

/// The plot at the head of the queue is a plot of the map that can be
/// reached.
pub proof fn lemma_search_head(
    data: &Data,
    coord: Coord,
    points: Seq<(Coord, Neighbors)>,
    queue: Seq<Coord>,
    head: int,
)
    requires
        search_inv(data, coord, points, queue, head),
        head < queue.len(),
    ensures
        0 <= head,
        data.connected(coord, queue[head]),
        data.on_map(queue[head]),
{
    reveal(search_inv);
    lemma_reached_on_map(data, coord, queue[head]);
}

/// The cell of a plot of the map is among the cells of the plots listed
/// where the plot is listed.
pub proof fn lemma_found_has(data: &Data, points: Seq<(Coord, Neighbors)>, c: Coord)
    requires
        data.wf(),
        data.on_map(c),
    ensures
        cells_of(data, points).contains(cell_of(c)) <==> listed(points, c),
{
    assert(plot_of(cell_of(c)) == c);
}

/// Listing one more plot of the map adds its cell to the cells of the
/// plots listed.
pub proof fn lemma_found_take(
    data: &Data,
    points: Seq<(Coord, Neighbors)>,
    c: Coord,
    flags: Neighbors,
)
    requires
        data.wf(),
        data.on_map(c),
    ensures
        cells_of(data, points.push((c, flags))) == cells_of(data, points).insert(cell_of(c)),
{
    assert(plot_of(cell_of(c)) == c);
    let more = cells_of(data, points.push((c, flags)));
    let grown = cells_of(data, points).insert(cell_of(c));
    assert forall|p: Position| more.contains(p) <==> grown.contains(p) by {
        lemma_listed_push(points, c, flags, plot_of(p));
        if p.0 < data.side() && p.1 < data.side() && plot_of(p) == c {
            assert(p.0 as isize as usize == p.0);
            assert(p.1 as isize as usize == p.1);
            assert(cell_of(plot_of(p)) == p);
        }
    }
    assert(more =~= grown);
}

impl Region {
    /// Whether the region is that of plot `start` on the map: it lists
    /// each plot that can be reached from `start` once, with the flags of
    /// its neighbours, and its area is the number of its plots.
    pub open spec fn is_region_of(&self, data: &Data, start: Coord) -> bool {
        &&& self.area == self.points@.len()
        &&& distinct(self.points@)
        &&& forall|k: int|
            0 <= k < self.points@.len() ==> data.connected(start, (#[trigger] self.points@[k]).0)
                && self.points@[k].1 == data.neighbors(self.points@[k].0)
        &&& forall|c: Coord| data.connected(start, c) ==> listed(self.points@, c)
    }

    /// Gathers the region of plot `coord`, going from plot to plot that
    /// joins it, and marks its plots in `visited`.
    pub fn load_region(coord: Coord, data: &Data, visited: &mut BitSet) -> (region: Region)
        requires
            data.wf(),
            data.on_map(coord),
            data.side() * data.side() <= u32::MAX,
            old(visited).wf(),
            old(visited).side() == data.side(),
        ensures
            region.is_region_of(data, coord),
            final(visited).wf(),
            final(visited).side() == old(visited).side(),
            final(visited)@ == old(visited)@.union(cells_of(data, region.points@)),
            region.points@.len() <= data.side() * data.side(),
    {
        let size = data.data.len();
        let cells: usize = size * size;
        let mut found = BitSet::new(size);
        let mut points: Vec<(Coord, Neighbors)> = Vec::new();
        let mut queue: Vec<Coord> = Vec::new();
        queue.push(coord);
        let mut head: usize = 0;
        proof {
            lemma_search_start(data, coord);
            assert(queue@ =~= seq![coord]);
            assert(points@ =~= Seq::<(Coord, Neighbors)>::empty());
            found.lemma_members_in_bounds();
            assert(visited@ =~= old(visited)@.union(found@));
        }
        while head < queue.len()
            invariant
                data.wf(),
                size == data.side(),
                cells <= u32::MAX,
                found.wf(),
                found.side() == size,
                visited.wf(),
                visited.side() == size,
                head <= queue@.len(),
                search_inv(data, coord, points@, queue@, head as int),
                found@ == cells_of(data, points@),
                points@.len() == found@.len(),
                found@.len() <= cells,
                size * size == cells,
                visited@ == old(visited)@.union(found@),
            decreases 4 * (cells - found@.len()) + (queue@.len() - head),
        {
            let c = queue[head];
            let ghost before = points@;
            let ghost line = queue@;
            let ghost at = head as int;
            let ghost held = found@;
            proof {
                lemma_search_head(data, coord, before, line, at);
                lemma_found_has(data, before, c);
                found.lemma_members_in_bounds();
            }
            head += 1;
            if found.contains(&(c.0 as usize, c.1 as usize)) {
                proof {
                    lemma_search_skip(data, coord, before, line, at);
                }
                continue ;
            }
            let neighbors = Neighbors {
                up: data.neighbor_up(c),
                down: data.neighbor_down(c),
                left: data.neighbor_left(c),
                right: data.neighbor_right(c),
            };
            points.push((c, neighbors));
            found.insert((c.0 as usize, c.1 as usize));
            visited.insert((c.0 as usize, c.1 as usize));
            let near = data.get_sourounding(c);
            append(&mut queue, &near);
            proof {
                assert(points@ == before.push((c, neighbors)));
                assert(neighbors == data.neighbors(c));
                assert(queue@ == line + near@);
                lemma_search_take(data, coord, before, line, at, near@);
                lemma_found_take(data, before, c, neighbors);
                assert(!held.contains(cell_of(c)));
                assert(found@ == held.insert(cell_of(c)));
                assert(found@.len() == held.len() + 1);
                found.lemma_members_in_bounds();
                assert(visited@ =~= old(visited)@.union(found@));
                assert(near@.len() <= 4);
            }
        }
        let region = Region { area: points.len() as u32, points };
        proof {
            assert(head == queue@.len());
            lemma_search_done(data, coord, region.points@, queue@);
        }
        region
    }
}

/// A plot that can be reached from a plot of the map is a plot of the map.
pub proof fn lemma_reached_on_map(data: &Data, a: Coord, b: Coord)
    requires
        data.connected(a, b),
    ensures
        data.on_map(b),
{
    let path = choose|path: Seq<Coord>| #[trigger] data.is_path(path) && path[0] == a && path.last() == b;
    if path.len() > 1 {
        assert(data.joins(path[path.len() - 2], path[path.len() - 1]));
    }
}

/// Puts the plots of `more` at the end of the queue.
fn append(queue: &mut Vec<Coord>, more: &Vec<Coord>)
    ensures
        final(queue)@ == old(queue)@ + more@,
{
    let mut i: usize = 0;
    proof {
        assert(queue@ =~= old(queue)@ + more@.subrange(0, 0));
    }
    while i < more.len()
        invariant
            i <= more.len(),
            queue@ == old(queue)@ + more@.subrange(0, i as int),
        decreases more.len() - i,
    {
        queue.push(more[i]);
        proof {
            assert(queue@ =~= old(queue)@ + more@.subrange(0, i + 1));
        }
        i += 1;
    }
    proof {
        assert(more@.subrange(0, i as int) =~= more@);
    }
}

/// Whether a plot with these flags is open in a direction, numbered up,
/// down, left, right: the plot next to it in that direction bears another
/// plant.
pub open spec fn is_open(flags: Neighbors, d: int) -> bool {
    if d == 0 {
        !flags.up
    } else if d == 1 {
        !flags.down
    } else if d == 2 {
        !flags.left
    } else {
        !flags.right
    }
}

/// The number of directions in which a plot with these flags is open.
pub open spec fn open_sides(flags: Neighbors) -> nat {
    (if flags.up { 0nat } else { 1nat }) + (if flags.down { 0nat } else { 1nat }) + (if flags.left {
        0nat
    } else {
        1nat
    }) + (if flags.right { 0nat } else { 1nat })
}

/// The length of the fence around the plots: the number of their open
/// directions, all added up.
pub open spec fn perimeter(points: Seq<(Coord, Neighbors)>) -> nat
    decreases points.len(),
{
    if points.len() == 0 {
        0
    } else {
        perimeter(points.drop_last()) + open_sides(points.last().1)
    }
}

/// The fence around fewer plots is no longer, and no plot has more than
/// four open directions.
pub proof fn lemma_perimeter_grows(points: Seq<(Coord, Neighbors)>, i: int)
    requires
        0 <= i <= points.len(),
    ensures
        perimeter(points.subrange(0, i)) <= perimeter(points),
        perimeter(points.subrange(0, i)) <= 4 * i,
    decreases points.len() - i,
{
    lemma_perimeter_bounded(points.subrange(0, i));
    if i < points.len() {
        lemma_perimeter_grows(points, i + 1);
        assert(points.subrange(0, i + 1).drop_last() =~= points.subrange(0, i));
    } else {
        assert(points.subrange(0, i) =~= points);
    }
}

/// The fence around plots is at most four times their number long.
pub proof fn lemma_perimeter_bounded(points: Seq<(Coord, Neighbors)>)
    ensures
        perimeter(points) <= 4 * points.len(),
    decreases points.len(),
{
    if points.len() > 0 {
        lemma_perimeter_bounded(points.drop_last());
    }
}

/// The number of directions in which a plot with these flags is open.
fn count_open(flags: &Neighbors) -> (n: usize)
    ensures
        n == open_sides(*flags),
{
    let up: usize = if flags.up { 0 } else { 1 };
    let down: usize = if flags.down { 0 } else { 1 };
    let left: usize = if flags.left { 0 } else { 1 };
    let right: usize = if flags.right { 0 } else { 1 };
    up + down + left + right
}

/// The length of the fence around the plots.
pub fn grahams_scan(points: &Vec<(Coord, Neighbors)>) -> (length: u32)
    requires
        4 * points@.len() <= u32::MAX,
    ensures
        length == perimeter(points@),
{
    let mut length: u32 = 0;
    let mut i: usize = 0;
    while i < points.len()
        invariant
            i <= points.len(),
            4 * points@.len() <= u32::MAX,
            length == perimeter(points@.subrange(0, i as int)),
        decreases points.len() - i,
    {
        proof {
            lemma_perimeter_grows(points@, i + 1);
            assert(points@.subrange(0, i + 1).drop_last() =~= points@.subrange(0, i as int));
        }
        length = length + count_open(&points[i].1) as u32;
        i += 1;
    }
    proof {
        assert(points@.subrange(0, i as int) =~= points@);
    }
    length
}

impl Region {
    /// The price of the fence: the area times the length of the fence.
    pub fn get_value(&self) -> (value: u32)
        requires
            4 * self.points@.len() <= u32::MAX,
            self.area * perimeter(self.points@) <= u32::MAX,
        ensures
            value == self.area * perimeter(self.points@),
    {
        self.area * grahams_scan(&self.points)
    }
}

/// The plot before plot `c` along a side that faces up or down, which is
/// the plot to its left, or along a side that faces left or right, which
/// is the plot above it.
pub open spec fn before_on_side(c: Coord, d: int) -> (int, int) {
    if d < 2 {
        (c.0 - 1, c.1 as int)
    } else {
        (c.0 as int, c.1 - 1)
    }
}

/// Whether one of the first `n` plots of the list is the plot `q` and is
/// open in direction `d`.
pub open spec fn open_upto(points: Seq<(Coord, Neighbors)>, d: int, q: (int, int), n: int) -> bool {
    exists|j: int|
        0 <= j < n && j < points.len() && is_open((#[trigger] points[j]).1, d) && points[j].0.0
            == q.0 && points[j].0.1 == q.1
}

/// Whether a side of the fence starts at the plot at place `k`: the plot
/// is open in direction `d`, and the plot before it along the side is not
/// in the list or not open in that direction.
pub open spec fn starts_side(points: Seq<(Coord, Neighbors)>, d: int, k: int) -> bool {
    is_open(points[k].1, d) && !open_upto(
        points,
        d,
        before_on_side(points[k].0, d),
        points.len() as int,
    )
}

/// The number of sides of the fence in direction `d` that start at one of
/// the first `n` plots.
pub open spec fn side_count(points: Seq<(Coord, Neighbors)>, d: int, n: nat) -> nat
    decreases n,
{
    if n == 0 {
        0
    } else {
        side_count(points, d, (n - 1) as nat) + if starts_side(points, d, n - 1) {
            1nat
        } else {
            0nat
        }
    }
}

/// The number of straight sides of the fence around the plots.
pub open spec fn sides(points: Seq<(Coord, Neighbors)>) -> nat {
    side_count(points, 0, points.len()) + side_count(points, 1, points.len()) + side_count(
        points,
        2,
        points.len(),
    ) + side_count(points, 3, points.len())
}

/// No more sides start than there are plots.
pub proof fn lemma_side_count_bounded(points: Seq<(Coord, Neighbors)>, d: int, n: nat)
    ensures
        side_count(points, d, n) <= n,
    decreases n,
{
    if n > 0 {
        lemma_side_count_bounded(points, d, (n - 1) as nat);
    }
}

/// Whether every plot of the list is a plot of a map of side `size`.
pub open spec fn points_on_map(points: Seq<(Coord, Neighbors)>, size: usize) -> bool {
    forall|k: int|
        0 <= k < points.len() ==> 0 <= (#[trigger] points[k]).0.0 < size && 0 <= points[k].0.1
            < size
}

/// Whether a plot with these flags is open in direction `d`.
fn open_flag(flags: &Neighbors, d: u8) -> (r: bool)
    ensures
        r == is_open(*flags, d as int),
{
    if d == 0 {
        !flags.up
    } else if d == 1 {
        !flags.down
    } else if d == 2 {
        !flags.left
    } else {
        !flags.right
    }
}

/// The cells of the plots that are open in direction `d`.
fn mark_open(points: &Vec<(Coord, Neighbors)>, d: u8, size: usize) -> (set: BitSet)
    requires
        size * size <= usize::MAX,
        size < isize::MAX,
        points_on_map(points@, size),
    ensures
        set.wf(),
        set.side() == size,
        forall|p: Position|
            set@.contains(p) <==> p.0 < size && p.1 < size && open_upto(
                points@,
                d as int,
                (p.0 as int, p.1 as int),
                points@.len() as int,
            ),
{
    let mut set = BitSet::new(size);
    let mut i: usize = 0;
    while i < points.len()
        invariant
            i <= points.len(),
            size < isize::MAX,
            points_on_map(points@, size),
            set.wf(),
            set.side() == size,
            forall|p: Position|
                set@.contains(p) <==> p.0 < size && p.1 < size && open_upto(
                    points@,
                    d as int,
                    (p.0 as int, p.1 as int),
                    i as int,
                ),
        decreases points.len() - i,
    {
        let (c, flags) = points[i];
        let ghost before = set@;
        proof {
            assert(points@[i as int] == (c, flags));
        }
        if open_flag(&flags, d) {
            set.insert((c.0 as usize, c.1 as usize));
        }
        proof {
            assert forall|p: Position|
                set@.contains(p) <==> p.0 < size && p.1 < size && open_upto(
                    points@,
                    d as int,
                    (p.0 as int, p.1 as int),
                    i + 1,
                ) by {
                let q = (p.0 as int, p.1 as int);
                if open_upto(points@, d as int, q, i + 1) {
                    let j = choose|j: int|
                        0 <= j < i + 1 && j < points@.len() && is_open(
                            (#[trigger] points@[j]).1,
                            d as int,
                        ) && points@[j].0.0 == q.0 && points@[j].0.1 == q.1;
                    if j < i {
                        assert(open_upto(points@, d as int, q, i as int));
                    }
                }
                if open_upto(points@, d as int, q, i as int) {
                    let j = choose|j: int|
                        0 <= j < i && j < points@.len() && is_open(
                            (#[trigger] points@[j]).1,
                            d as int,
                        ) && points@[j].0.0 == q.0 && points@[j].0.1 == q.1;
                    assert(0 <= j < i + 1);
                }
                if is_open(flags, d as int) && p == (c.0 as usize, c.1 as usize) {
                    assert(points@[i as int].0.0 == q.0 && points@[i as int].0.1 == q.1);
                }
            }
        }
        i += 1;
    }
    set
}

/// The number of sides of the fence that face direction `d`.
fn count_sides(points: &Vec<(Coord, Neighbors)>, d: u8, size: usize) -> (n: usize)
    requires
        d < 4,
        size * size <= usize::MAX,
        size < isize::MAX,
        points_on_map(points@, size),
    ensures
        n == side_count(points@, d as int, points@.len()),
{
    let set = mark_open(points, d, size);
    let mut n: usize = 0;
    let mut k: usize = 0;
    while k < points.len()
        invariant
            k <= points.len(),
            n <= k,
            d < 4,
            size < isize::MAX,
            points_on_map(points@, size),
            set.wf(),
            set.side() == size,
            forall|p: Position|
                set@.contains(p) <==> p.0 < size && p.1 < size && open_upto(
                    points@,
                    d as int,
                    (p.0 as int, p.1 as int),
                    points@.len() as int,
                ),
            n == side_count(points@, d as int, k as nat),
        decreases points.len() - k,
    {
        let (c, flags) = points[k];
        proof {
            assert(points@[k as int] == (c, flags));
        }
        if open_flag(&flags, d) {
            let ghost q = before_on_side(c, d as int);
            let continued = if d < 2 {
                c.0 > 0 && set.contains(&((c.0 - 1) as usize, c.1 as usize))
            } else {
                c.1 > 0 && set.contains(&(c.0 as usize, (c.1 - 1) as usize))
            };
            proof {
                if open_upto(points@, d as int, q, points@.len() as int) {
                    let j = choose|j: int|
                        0 <= j < points@.len() && j < points@.len() && is_open(
                            (#[trigger] points@[j]).1,
                            d as int,
                        ) && points@[j].0.0 == q.0 && points@[j].0.1 == q.1;
                    assert(0 <= q.0 && 0 <= q.1);
                }
                assert(continued == open_upto(points@, d as int, q, points@.len() as int));
            }
            if !continued {
                n += 1;
            }
        }
        k += 1;
    }
    n
}

impl Region {
    /// The number of straight sides of the fence around the region.
    pub fn get_sides(&self, size: usize) -> (n: u32)
        requires
            size * size <= usize::MAX,
            size < isize::MAX,
            points_on_map(self.points@, size),
            4 * self.points@.len() <= u32::MAX,
        ensures
            n == sides(self.points@),
    {
        proof {
            lemma_side_count_bounded(self.points@, 0, self.points@.len());
            lemma_side_count_bounded(self.points@, 1, self.points@.len());
            lemma_side_count_bounded(self.points@, 2, self.points@.len());
            lemma_side_count_bounded(self.points@, 3, self.points@.len());
        }
        let top_open = count_sides(&self.points, 0, size);
        let bottom_open = count_sides(&self.points, 1, size);
        let left_open = count_sides(&self.points, 2, size);
        let right_open = count_sides(&self.points, 3, size);
        (top_open + bottom_open + left_open + right_open) as u32
    }

    /// The price of the fence at a discount: the area times the number of
    /// sides of the fence.
    pub fn get_discount_value(&self, size: usize) -> (value: u32)
        requires
            size * size <= usize::MAX,
            size < isize::MAX,
            points_on_map(self.points@, size),
            4 * self.points@.len() <= u32::MAX,
            sides(self.points@) * self.area <= u32::MAX,
        ensures
            value == sides(self.points@) * self.area,
    {
        self.get_sides(size) * self.area
    }
}

impl Data {
    /// What joins a plot is joined by it.
    pub proof fn lemma_joins_symmetric(&self, a: Coord, b: Coord)
        requires
            self.wf(),
            self.joins(a, b),
        ensures
            self.joins(b, a),
    {
        let d = choose|d: int| 0 <= d < 4 && #[trigger] Data::beside(a, d) == (b.0 as int, b.1 as int);
        let back = if d == 0 {
            2int
        } else if d == 1 {
            3int
        } else if d == 2 {
            0int
        } else {
            1int
        };
        assert(Data::beside(b, back) == (a.0 as int, a.1 as int));
    }

    /// A path walked backwards is a path.
    pub proof fn lemma_path_reversed(&self, path: Seq<Coord>)
        requires
            self.wf(),
            self.is_path(path),
        ensures
            self.is_path(path.reverse()),
            path.reverse()[0] == path.last(),
            path.reverse().last() == path[0],
    {
        let back = path.reverse();
        lemma_reached_on_map(self, path[0], path.last());
        assert forall|i: int| 0 <= i < back.len() - 1 implies self.joins(
            #[trigger] back[i],
            back[i + 1],
        ) by {
            let k = path.len() - 2 - i;
            assert(self.joins(path[k], path[k + 1]));
            self.lemma_joins_symmetric(path[k], path[k + 1]);
        }
    }

    /// A plot can be reached from what can be reached from it.
    pub proof fn lemma_connected_symmetric(&self, a: Coord, b: Coord)
        requires
            self.wf(),
            self.connected(a, b),
        ensures
            self.connected(b, a),
    {
        let path = choose|path: Seq<Coord>|
            #[trigger] self.is_path(path) && path[0] == a && path.last() == b;
        self.lemma_path_reversed(path);
        assert(self.is_path(path.reverse()));
    }

    /// What can be reached from a plot that can be reached can be reached.
    pub proof fn lemma_connected_transitive(&self, a: Coord, b: Coord, c: Coord)
        requires
            self.connected(a, b),
            self.connected(b, c),
        ensures
            self.connected(a, c),
    {
        let first = choose|path: Seq<Coord>|
            #[trigger] self.is_path(path) && path[0] == a && path.last() == b;
        let second = choose|path: Seq<Coord>|
            #[trigger] self.is_path(path) && path[0] == b && path.last() == c;
        let whole = first + second.drop_first();
        assert forall|i: int| 0 <= i < whole.len() - 1 implies self.joins(
            #[trigger] whole[i],
            whole[i + 1],
        ) by {
            if i < first.len() - 1 {
                assert(self.joins(first[i], first[i + 1]));
            } else {
                let k = i - (first.len() - 1);
                assert(self.joins(second[k], second[k + 1]));
                if k == 0 {
                    assert(whole[i] == first.last());
                } else {
                    assert(whole[i] == second[k]);
                }
                assert(whole[i + 1] == second[k + 1]);
            }
        }
        assert(self.is_path(whole));
        assert(whole[0] == a);
        assert(whole.last() == c);
    }
}

/// Whether the region is the region of some plot of the map.
pub open spec fn is_some_region(data: &Data, region: Region) -> bool {
    exists|start: Coord| data.on_map(start) && #[trigger] region.is_region_of(data, start)
}

/// Whether some region of the list lists plot `c`.
pub open spec fn in_some_region(regions: Seq<Region>, c: Coord) -> bool {
    exists|k: int| 0 <= k < regions.len() && listed((#[trigger] regions[k]).points@, c)
}

/// Whether each region of the list is the region of a plot of the map.
pub open spec fn all_regions(data: &Data, regions: Seq<Region>) -> bool {
    forall|k: int| 0 <= k < regions.len() ==> is_some_region(data, #[trigger] regions[k])
}

/// Whether no plot is listed by two regions of the list.
pub open spec fn apart(regions: Seq<Region>) -> bool {
    forall|j: int, k: int, c: Coord|
        0 <= j < k < regions.len() && #[trigger] listed(regions[j].points@, c) ==> !#[trigger] listed(
            regions[k].points@,
            c,
        )
}

/// The cells of the plots that the regions of the list hold.
pub open spec fn covered(data: &Data, regions: Seq<Region>) -> Set<Position> {
    Set::new(
        |p: Position| p.0 < data.side() && p.1 < data.side() && in_some_region(regions, plot_of(p)),
    )
}

/// Whether the regions are the regions of the garden: each is the region
/// of a plot, no plot is in two of them, and every plot is in one.
#[verifier::opaque]
pub open spec fn is_partition(data: &Data, regions: Seq<Region>) -> bool {
    &&& all_regions(data, regions)
    &&& apart(regions)
    &&& forall|c: Coord| data.on_map(c) ==> in_some_region(regions, c)
}

/// A region of a plot whose cell is not among the cells of the regions of
/// a list shares no plot with them, and with it the list holds its cells
/// as well.
pub proof fn lemma_new_region(data: &Data, regions: Seq<Region>, region: Region, start: Coord)
    requires
        data.wf(),
        data.on_map(start),
        all_regions(data, regions),
        apart(regions),
        region.is_region_of(data, start),
        !covered(data, regions).contains(cell_of(start)),
    ensures
        all_regions(data, regions.push(region)),
        apart(regions.push(region)),
        covered(data, regions.push(region)) == covered(data, regions).union(
            cells_of(data, region.points@),
        ),
{
    let more = regions.push(region);
    assert(plot_of(cell_of(start)) == start);
    assert forall|k: int| 0 <= k < more.len() implies is_some_region(data, #[trigger] more[k]) by {
        if k < regions.len() {
            assert(more[k] == regions[k]);
        }
    }
    assert forall|j: int, k: int, c: Coord|
        0 <= j < k < more.len() && #[trigger] listed(more[j].points@, c) implies !#[trigger] listed(
        more[k].points@,
        c,
    ) by {
        assert(more[j] == regions[j]);
        if k < regions.len() {
            assert(more[k] == regions[k]);
        } else if listed(region.points@, c) {
            let other = regions[j];
            let s = choose|s: Coord| data.on_map(s) && #[trigger] other.is_region_of(data, s);
            let m = choose|m: int| 0 <= m < other.points@.len() && (#[trigger] other.points@[m]).0 == c;
            let n = choose|n: int|
                0 <= n < region.points@.len() && (#[trigger] region.points@[n]).0 == c;
            assert(data.connected(s, other.points@[m].0));
            assert(data.connected(start, region.points@[n].0));
            data.lemma_connected_symmetric(start, c);
            data.lemma_connected_transitive(s, c, start);
            assert(listed(other.points@, start));
            assert(in_some_region(regions, start));
        }
    }
    let grown = covered(data, regions).union(cells_of(data, region.points@));
    assert forall|p: Position| covered(data, more).contains(p) <==> grown.contains(p) by {
        let c = plot_of(p);
        if in_some_region(more, c) {
            let k = choose|k: int| 0 <= k < more.len() && listed((#[trigger] more[k]).points@, c);
            if k < regions.len() {
                assert(more[k] == regions[k]);
                assert(in_some_region(regions, c));
            }
        }
        if in_some_region(regions, c) {
            let k = choose|k: int|
                0 <= k < regions.len() && listed((#[trigger] regions[k]).points@, c);
            assert(more[k] == regions[k]);
        }
        if listed(region.points@, c) {
            assert(more[regions.len() as int] == region);
        }
    }
    assert(covered(data, more) =~= grown);
}

/// What holds while the regions of a garden are gathered: each region
/// gathered is the region of a plot, no plot is in two of them, none has
/// more plots than the map, and the cells marked are those of their plots.
#[verifier::opaque]
pub open spec fn gathered(data: &Data, regions: Seq<Region>, visited: Set<Position>) -> bool {
    &&& all_regions(data, regions)
    &&& apart(regions)
    &&& visited == covered(data, regions)
    &&& forall|k: int|
        0 <= k < regions.len() ==> (#[trigger] regions[k]).points@.len() <= data.side()
            * data.side()
}

/// With no region gathered and no cell marked, what holds while the
/// regions of a garden are gathered holds.
pub proof fn lemma_gathered_start(data: &Data)
    ensures
        gathered(data, Seq::empty(), Set::empty()),
{
    reveal(gathered);
    assert(covered(data, Seq::empty()) =~= Set::<Position>::empty());
}

/// Gathering the region of a plot whose cell is not marked keeps what
/// holds while the regions of a garden are gathered, and marks the cell.
pub proof fn lemma_gathered_take(
    data: &Data,
    regions: Seq<Region>,
    visited: Set<Position>,
    region: Region,
    start: Coord,
)
    requires
        data.wf(),
        data.on_map(start),
        gathered(data, regions, visited),
        !visited.contains(cell_of(start)),
        region.is_region_of(data, start),
        region.points@.len() <= data.side() * data.side(),
    ensures
        gathered(data, regions.push(region), visited.union(cells_of(data, region.points@))),
        cells_of(data, region.points@).contains(cell_of(start)),
{
    reveal(gathered);
    lemma_new_region(data, regions, region, start);
    data.lemma_connected_self(start);
    assert(plot_of(cell_of(start)) == start);
    let more = regions.push(region);
    assert forall|k: int| 0 <= k < more.len() implies (#[trigger] more[k]).points@.len()
        <= data.side() * data.side() by {
        if k < regions.len() {
            assert(more[k] == regions[k]);
        }
    }
}

/// When every cell of the map is marked, the regions gathered are the
/// regions of the garden.
pub proof fn lemma_gathered_done(data: &Data, regions: Seq<Region>, visited: Set<Position>)
    requires
        data.wf(),
        gathered(data, regions, visited),
        forall|p: Position| p.0 < data.side() && p.1 < data.side() ==> visited.contains(p),
    ensures
        is_partition(data, regions),
        forall|k: int|
            0 <= k < regions.len() ==> (#[trigger] regions[k]).points@.len() <= data.side()
                * data.side(),
{
    reveal(gathered);
    reveal(is_partition);
    assert forall|c: Coord| data.on_map(c) implies in_some_region(regions, c) by {
        assert(plot_of(cell_of(c)) == c);
        assert(visited.contains(cell_of(c)));
    }
}

/// The regions of the garden, in the order in which their first plots are
/// read.
pub fn load_regions(data: &Data) -> (regions: Vec<Region>)
    requires
        data.wf(),
        data.side() * data.side() <= u32::MAX,
    ensures
        is_partition(data, regions@),
        forall|k: int|
            0 <= k < regions@.len() ==> (#[trigger] regions@[k]).points@.len() <= data.side()
                * data.side(),
{
    let size = data.data.len();
    let cells: usize = size * size;
    let mut visited = BitSet::new(size);
    let mut regions: Vec<Region> = Vec::new();
    let mut y: usize = 0;
    proof {
        lemma_gathered_start(data);
    }
    while y < size
        invariant
            data.wf(),
            size == data.side(),
            size * size <= u32::MAX,
            y <= size,
            visited.wf(),
            visited.side() == size,
            gathered(data, regions@, visited@),
            forall|p: Position| p.0 < size && p.1 < y ==> visited@.contains(p),
        decreases size - y,
    {
        let mut x: usize = 0;
        while x < size
            invariant
                data.wf(),
                size == data.side(),
                size * size <= u32::MAX,
                y < size,
                x <= size,
                visited.wf(),
                visited.side() == size,
                gathered(data, regions@, visited@),
                forall|p: Position|
                    p.0 < size && (p.1 < y || (p.1 == y && p.0 < x)) ==> visited@.contains(p),
            decreases size - x,
        {
            if !visited.contains(&(x, y)) {
                let ghost before = visited@;
                let ghost held = regions@;
                let coord: Coord = (x as isize, y as isize);
                let region = Region::load_region(coord, data, &mut visited);
                proof {
                    assert(cell_of(coord) == (x, y));
                    lemma_gathered_take(data, held, before, region, coord);
                }
                regions.push(region);
            }
            x += 1;
        }
        y += 1;
    }
    proof {
        lemma_gathered_done(data, regions@, visited@);
    }
    regions
}

/// The price of the fences of the regions: for each the area times the
/// length of its fence, all added up.
pub open spec fn total_value(regions: Seq<Region>) -> nat
    decreases regions.len(),
{
    if regions.len() == 0 {
        0
    } else {
        (total_value(regions.drop_last()) + regions.last().area * perimeter(
            regions.last().points@,
        )) as nat
    }
}

/// The price of the fences of the regions at a discount: for each the area
/// times the number of sides of its fence, all added up.
pub open spec fn total_discount_value(regions: Seq<Region>) -> nat
    decreases regions.len(),
{
    if regions.len() == 0 {
        0
    } else {
        (total_discount_value(regions.drop_last()) + sides(regions.last().points@)
            * regions.last().area) as nat
    }
}

/// The prices of the first regions are no more than the prices of all.
pub proof fn lemma_totals_grow(regions: Seq<Region>, i: int)
    requires
        0 <= i <= regions.len(),
    ensures
        total_value(regions.subrange(0, i)) <= total_value(regions),
        total_discount_value(regions.subrange(0, i)) <= total_discount_value(regions),
    decreases regions.len() - i,
{
    if i < regions.len() {
        lemma_totals_grow(regions, i + 1);
        assert(regions.subrange(0, i + 1).drop_last() =~= regions.subrange(0, i));
        let r = regions[i];
        assert(r.area * perimeter(r.points@) >= 0) by (nonlinear_arith)
            requires
                r.area >= 0,
                perimeter(r.points@) >= 0,
        ;
        assert(sides(r.points@) * r.area >= 0) by (nonlinear_arith)
            requires
                r.area >= 0,
                sides(r.points@) >= 0,
        ;
    } else {
        assert(regions.subrange(0, i) =~= regions);
    }
}

/// The price of the fences of the garden: for each region the area times
/// the length of its fence, all added up.
pub fn part1(data: &Data) -> (sum: u32)
    requires
        data.wf(),
        4 * (data.side() * data.side()) <= u32::MAX,
        forall|regions: Seq<Region>| #[trigger]
            is_partition(data, regions) ==> total_value(regions) <= u32::MAX,
    ensures
        exists|regions: Seq<Region>| #[trigger]
            is_partition(data, regions) && sum == total_value(regions),
{
    let regions = load_regions(data);
    let mut sum: u32 = 0;
    let mut i: usize = 0;
    while i < regions.len()
        invariant
            i <= regions.len(),
            4 * (data.side() * data.side()) <= u32::MAX,
            total_value(regions@) <= u32::MAX,
            forall|k: int|
                0 <= k < regions@.len() ==> (#[trigger] regions@[k]).points@.len() <= data.side()
                    * data.side(),
            sum == total_value(regions@.subrange(0, i as int)),
        decreases regions.len() - i,
    {
        proof {
            lemma_totals_grow(regions@, i + 1);
            assert(regions@.subrange(0, i + 1).drop_last() =~= regions@.subrange(0, i as int));
            assert(regions@[i as int].points@.len() <= data.side() * data.side());
        }
        sum = sum + regions[i].get_value();
        i += 1;
    }
    proof {
        assert(regions@.subrange(0, i as int) =~= regions@);
    }
    sum
}

/// The price of the fences of the garden at a discount: for each region
/// the area times the number of sides of its fence, all added up.
pub fn part2(data: &Data) -> (sum: u32)
    requires
        data.wf(),
        4 * (data.side() * data.side()) <= u32::MAX,
        forall|regions: Seq<Region>| #[trigger]
            is_partition(data, regions) ==> total_discount_value(regions) <= u32::MAX,
    ensures
        exists|regions: Seq<Region>| #[trigger]
            is_partition(data, regions) && sum == total_discount_value(regions),
{
    let size = data.data.len();
    let regions = load_regions(data);
    let mut sum: u32 = 0;
    let mut i: usize = 0;
    while i < regions.len()
        invariant
            i <= regions.len(),
            data.wf(),
            size == data.side(),
            4 * (size * size) <= u32::MAX,
            is_partition(data, regions@),
            total_discount_value(regions@) <= u32::MAX,
            forall|k: int|
                0 <= k < regions@.len() ==> (#[trigger] regions@[k]).points@.len() <= data.side()
                    * data.side(),
            sum == total_discount_value(regions@.subrange(0, i as int)),
        decreases regions.len() - i,
    {
        proof {
            lemma_totals_grow(regions@, i + 1);
            assert(regions@.subrange(0, i + 1).drop_last() =~= regions@.subrange(0, i as int));
            assert(regions@[i as int].points@.len() <= data.side() * data.side());
            lemma_region_on_map(data, regions@, i as int);
        }
        sum = sum + regions[i].get_discount_value(size);
        i += 1;
    }
    proof {
        assert(regions@.subrange(0, i as int) =~= regions@);
    }
    sum
}

/// The plots of a region of the garden are plots of the map.
pub proof fn lemma_region_on_map(data: &Data, regions: Seq<Region>, k: int)
    requires
        data.wf(),
        is_partition(data, regions),
        0 <= k < regions.len(),
    ensures
        points_on_map(regions[k].points@, data.side() as usize),
{
    reveal(is_partition);
    let region = regions[k];
    assert(is_some_region(data, region));
    let start = choose|start: Coord| data.on_map(start) && #[trigger] region.is_region_of(data, start);
    assert forall|m: int| 0 <= m < region.points@.len() implies 0 <= (#[trigger] region.points@[m]).0.0
        < data.side() && 0 <= region.points@[m].0.1 < data.side() by {
        lemma_reached_on_map(data, start, region.points@[m].0);
    }
}

/// The map of a garden with the given rows of plants, where they make a
/// square that is not too large to count its plots.
pub fn load_data(rows: Vec<Vec<char>>) -> (r: Option<Data>)
    ensures
        match r {
            Some(data) => {
                &&& data.data == rows
                &&& data.wf()
                &&& 4 * (data.side() * data.side()) <= u32::MAX
            },
            None => !is_square(rows@) || 4 * (rows@.len() * rows@.len()) > u32::MAX,
        },
{
    if !crate::patrol::load::check_square(&rows) {
        return None;
    }
    let size = rows.len();
    if size > 32767 {
        proof {
            assert(4 * (size * size) > u32::MAX) by (nonlinear_arith)
                requires
                    size >= 32768,
            ;
        }
        return None;
    }
    proof {
        assert(4 * (size * size) <= u32::MAX) by (nonlinear_arith)
            requires
                size <= 32767,
        ;
    }
    Some(Data { data: rows })
}

/// A stretch of places in a line, from `start` to `end`.
#[derive(Clone, Copy, Debug, PartialEq, Eq)]
pub struct ListElement {
    pub start: isize,
    pub end: isize,
}

/// Whether a stretch in line `a.0` may stand before a stretch in line
/// `b.0`: its line comes first, or the lines are the same and it does not
/// start behind the other.
pub open spec fn stands_before(a: (isize, ListElement), b: (isize, ListElement)) -> bool {
    a.0 < b.0 || (a.0 == b.0 && a.1.start <= b.1.start)
}

/// The list with one more stretch, put behind the last stretch that may
/// stand before it.
pub open spec fn insert_stretch(
    acc: Seq<(isize, ListElement)>,
    e: (isize, ListElement),
) -> Seq<(isize, ListElement)>
    decreases acc.len(),
{
    if acc.len() == 0 {
        seq![e]
    } else if stands_before(acc.last(), e) {
        acc.push(e)
    } else {
        insert_stretch(acc.drop_last(), e).push(acc.last())
    }
}

/// The stretches in the order of their lines and, within a line, of their
/// starts; stretches that start alike keep their order.
pub open spec fn in_order(s: Seq<(isize, ListElement)>) -> Seq<(isize, ListElement)>
    decreases s.len(),
{
    if s.len() == 0 {
        Seq::empty()
    } else {
        insert_stretch(in_order(s.drop_last()), s.last())
    }
}

/// The stretches with each that starts right behind the end of the one
/// before it, in the same line, joined to that one.
pub open spec fn joined(s: Seq<(isize, ListElement)>) -> Seq<(isize, ListElement)>
    decreases s.len(),
{
    if s.len() == 0 {
        Seq::empty()
    } else {
        let before = joined(s.drop_last());
        if before.len() > 0 && before.last().0 == s.last().0 && before.last().1.end + 1
            == s.last().1.start {
            before.drop_last().push(
                (before.last().0, ListElement { start: before.last().1.start, end: s.last().1.end }),
            )
        } else {
            before.push(s.last())
        }
    }
}

/// Where the stretches from place `k` on may not stand before `e` and the
/// stretch before place `k` may, `e` is put in at place `k`.
pub proof fn lemma_insert_stretch_at(
    acc: Seq<(isize, ListElement)>,
    e: (isize, ListElement),
    k: int,
)
    requires
        0 <= k <= acc.len(),
        forall|j: int| k <= j < acc.len() ==> !stands_before(#[trigger] acc[j], e),
        k > 0 ==> stands_before(acc[k - 1], e),
    ensures
        insert_stretch(acc, e) == acc.insert(k, e),
    decreases acc.len() - k,
{
    if acc.len() == 0 {
        assert(acc.insert(0, e) =~= seq![e]);
    } else if k == acc.len() {
        assert(acc.insert(k, e) =~= acc.push(e));
    } else {
        assert(acc.last() == acc[acc.len() - 1]);
        let front = acc.drop_last();
        assert forall|j: int| k <= j < front.len() implies !stands_before(#[trigger] front[j], e) by {
            assert(front[j] == acc[j]);
        }
        lemma_insert_stretch_at(front, e, k);
        assert(front.insert(k, e).push(acc.last()) =~= acc.insert(k, e));
    }
}

/// Whether a stretch may stand before another.
fn may_stand_before(a: &(isize, ListElement), b: &(isize, ListElement)) -> (r: bool)
    ensures
        r == stands_before(*a, *b),
{
    a.0 < b.0 || (a.0 == b.0 && a.1.start <= b.1.start)
}

/// Puts the stretches in the order of their lines and, within a line, of
/// their starts, and joins each stretch that starts right behind the end
/// of the one before it, in the same line, to that one.
pub fn merge_ranges(list: Vec<(isize, ListElement)>) -> (merged_ranges: Vec<(isize, ListElement)>)
    requires
        forall|i: int| 0 <= i < list@.len() ==> (#[trigger] list@[i]).1.end < isize::MAX,
    ensures
        merged_ranges@ == joined(in_order(list@)),
{
    let mut sorted: Vec<(isize, ListElement)> = Vec::new();
    let mut i: usize = 0;
    proof {
        assert(list@.subrange(0, 0) =~= Seq::<(isize, ListElement)>::empty());
    }
    while i < list.len()
        invariant
            i <= list.len(),
            sorted@ == in_order(list@.subrange(0, i as int)),
            forall|k: int| 0 <= k < sorted@.len() ==> (#[trigger] sorted@[k]).1.end < isize::MAX,
            forall|k: int| 0 <= k < list@.len() ==> (#[trigger] list@[k]).1.end < isize::MAX,
        decreases list.len() - i,
    {
        let e = list[i];
        let mut k: usize = sorted.len();
        while k > 0 && !may_stand_before(&sorted[k - 1], &e)
            invariant
                k <= sorted@.len(),
                forall|j: int| k <= j < sorted@.len() ==> !stands_before(#[trigger] sorted@[j], e),
            decreases k,
        {
            k -= 1;
        }
        proof {
            lemma_insert_stretch_at(sorted@, e, k as int);
            assert(list@.subrange(0, i + 1).drop_last() =~= list@.subrange(0, i as int));
        }
        let ghost before = sorted@;
        sorted.insert(k, e);
        proof {
            assert forall|m: int| 0 <= m < sorted@.len() implies (#[trigger] sorted@[m]).1.end
                < isize::MAX by {
                if m < k {
                    assert(sorted@[m] == before[m]);
                } else if m > k {
                    assert(sorted@[m] == before[m - 1]);
                }
            }
        }
        i += 1;
    }
    proof {
        assert(list@.subrange(0, i as int) =~= list@);
        assert(sorted@.subrange(0, 0) =~= Seq::<(isize, ListElement)>::empty());
    }
    let mut merged_ranges: Vec<(isize, ListElement)> = Vec::new();
    let mut j: usize = 0;
    while j < sorted.len()
        invariant
            j <= sorted.len(),
            merged_ranges@ == joined(sorted@.subrange(0, j as int)),
            forall|k: int| 0 <= k < sorted@.len() ==> (#[trigger] sorted@[k]).1.end < isize::MAX,
            merged_ranges@.len() > 0 ==> merged_ranges@.last().1.end < isize::MAX,
        decreases sorted.len() - j,
    {
        let (same, range) = sorted[j];
        proof {
            assert(sorted@.subrange(0, j + 1).drop_last() =~= sorted@.subrange(0, j as int));
            assert(sorted@.subrange(0, j + 1).last() == (same, range));
        }
        let n = merged_ranges.len();
        if n > 0 && merged_ranges[n - 1].0 == same && merged_ranges[n - 1].1.end + 1 == range.start {
            let last = merged_ranges[n - 1];
            let ghost held = merged_ranges@;
            merged_ranges.set(n - 1, (last.0, ListElement { start: last.1.start, end: range.end }));
            proof {
                assert(held.last() == last);
                assert(merged_ranges@ =~= held.drop_last().push(
                    (last.0, ListElement { start: last.1.start, end: range.end }),
                ));
            }
        } else {
            merged_ranges.push((same, range));
        }
        j += 1;
    }
    proof {
        assert(sorted@.subrange(0, j as int) =~= sorted@);
    }
    merged_ranges
}

} // verus!
