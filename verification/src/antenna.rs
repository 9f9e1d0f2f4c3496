use vstd::prelude::*;
use crate::patrol::bitset::BitSet;
use crate::patrol::guard::{Position, in_bounds};

verus! {

/// An antenna on a map, by its two coordinates.
#[derive(Clone, Copy, Debug, PartialEq, Eq, Structural)]
pub struct Antenna {
    pub x: isize,
    pub y: isize,
}

impl Antenna {
    /// The antenna at (`x`, `y`).
    pub fn new(x: isize, y: isize) -> (a: Self)
        ensures
            a.x == x,
            a.y == y,
    {
        Self { x, y }
    }

    /// The two coordinates of the antenna.
    pub fn coords(&self) -> (c: (isize, isize))
        ensures
            c == (self.x, self.y),
    {
        (self.x, self.y)
    }

    /// Whether the antenna stands on a map of side `size`.
    pub open spec fn on_map(self, size: isize) -> bool {
        0 <= self.x < size && 0 <= self.y < size
    }

    /// Whether the antenna stands on a map of side `size`.
    pub fn is_possible(&self, size: isize) -> (r: bool)
        ensures
            r == self.on_map(size),
    {
        self.x >= 0 && self.y >= 0 && self.x < size && self.y < size
    }
}

/// Whether a number fits the machine's signed word.
pub open spec fn fits(n: int) -> bool {
    isize::MIN <= n <= isize::MAX
}

impl std::ops::Sub for Antenna {
    type Output = (isize, isize);

    fn sub(self, rhs: Self) -> (d: (isize, isize)) {
        (self.x - rhs.x, self.y - rhs.y)
    }
}

impl vstd::std_specs::ops::SubSpecImpl for Antenna {
    open spec fn obeys_sub_spec() -> bool {
        true
    }

    open spec fn sub_req(self, rhs: Self) -> bool {
        fits(self.x - rhs.x) && fits(self.y - rhs.y)
    }

    open spec fn sub_spec(self, rhs: Self) -> (isize, isize) {
        ((self.x - rhs.x) as isize, (self.y - rhs.y) as isize)
    }
}

impl std::ops::Add for Antenna {
    type Output = (isize, isize);

    fn add(self, rhs: Self) -> (d: (isize, isize)) {
        (self.x + rhs.x, self.y + rhs.y)
    }
}

impl vstd::std_specs::ops::AddSpecImpl for Antenna {
    open spec fn obeys_add_spec() -> bool {
        true
    }

    open spec fn add_req(self, rhs: Self) -> bool {
        fits(self.x + rhs.x) && fits(self.y + rhs.y)
    }

    open spec fn add_spec(self, rhs: Self) -> (isize, isize) {
        ((self.x + rhs.x) as isize, (self.y + rhs.y) as isize)
    }
}

impl std::ops::Add<(isize, isize)> for Antenna {
    type Output = Antenna;

    fn add(self, rhs: (isize, isize)) -> (a: Antenna) {
        Antenna::new(self.x + rhs.0, self.y + rhs.1)
    }
}

impl vstd::std_specs::ops::AddSpecImpl<(isize, isize)> for Antenna {
    open spec fn obeys_add_spec() -> bool {
        true
    }

    open spec fn add_req(self, rhs: (isize, isize)) -> bool {
        fits(self.x + rhs.0) && fits(self.y + rhs.1)
    }

    open spec fn add_spec(self, rhs: (isize, isize)) -> Antenna {
        Antenna { x: (self.x + rhs.0) as isize, y: (self.y + rhs.1) as isize }
    }
}

impl std::ops::Sub<(isize, isize)> for Antenna {
    type Output = Antenna;

    fn sub(self, rhs: (isize, isize)) -> (a: Antenna) {
        Antenna::new(self.x - rhs.0, self.y - rhs.1)
    }
}

impl vstd::std_specs::ops::SubSpecImpl<(isize, isize)> for Antenna {
    open spec fn obeys_sub_spec() -> bool {
        true
    }

    open spec fn sub_req(self, rhs: (isize, isize)) -> bool {
        fits(self.x - rhs.0) && fits(self.y - rhs.1)
    }

    open spec fn sub_spec(self, rhs: (isize, isize)) -> Antenna {
        Antenna { x: (self.x - rhs.0) as isize, y: (self.y - rhs.1) as isize }
    }
}

/// Whether the antennas at places `i` and `j` of group `g` are two
/// different antennas.
pub open spec fn pair_at(data: Seq<Vec<Antenna>>, g: int, i: int, j: int) -> bool {
    &&& 0 <= g < data.len()
    &&& 0 <= i < data[g]@.len()
    &&& 0 <= j < data[g]@.len()
    &&& data[g]@[i] != data[g]@[j]
}

/// The point as far behind antenna `a` as antenna `b` is before it.
pub open spec fn mirror(a: Antenna, b: Antenna) -> (int, int) {
    (2 * a.x - b.x, 2 * a.y - b.y)
}

/// The coordinates of a cell.
pub open spec fn coords_of(p: Position) -> (int, int) {
    (p.0 as int, p.1 as int)
}

/// Whether the triple (`g`, `i`, `j`) comes before (`gg`, `ii`, `jj`) when
/// the pairs are gone through group by group.
pub open spec fn earlier(g: int, i: int, j: int, gg: int, ii: int, jj: int) -> bool {
    g < gg || (g == gg && (i < ii || (i == ii && j < jj)))
}

/// Whether every antenna stands on the map of side `size`.
pub open spec fn all_on_map(data: Seq<Vec<Antenna>>, size: usize) -> bool {
    forall|g: int, i: int|
        0 <= g < data.len() && 0 <= i < data[g]@.len() ==> (#[trigger] data[g]@[i]).on_map(
            size as isize,
        )
}

/// The point `k` steps from an antenna.
pub open spec fn ray_point(from: Antenna, step: (isize, isize), k: int) -> (int, int) {
    (from.x + k * step.0, from.y + k * step.1)
}

/// Whether a point lies on the map of side `size`.
pub open spec fn point_on_map(p: (int, int), size: usize) -> bool {
    0 <= p.0 < size && 0 <= p.1 < size
}

/// The cells of the map of side `size` that lie one step or more from an
/// antenna.
pub open spec fn ray(from: Antenna, step: (isize, isize), size: usize) -> Set<Position> {
    Set::new(
        |p: Position|
            in_bounds(size, p) && exists|k: int|
                k >= 1 && #[trigger] ray_point(from, step, k) == coords_of(p),
    )
}

/// Once the steps from an antenna on the map have left the map, they do
/// not come back.
pub proof fn lemma_ray_leaves(from: Antenna, step: (isize, isize), size: usize, k: int, further: int)
    requires
        from.on_map(size as isize),
        1 <= k <= further,
        !point_on_map(ray_point(from, step, k), size),
    ensures
        !point_on_map(ray_point(from, step, further), size),
{
    let fx = from.x as int;
    let fy = from.y as int;
    let sx = step.0 as int;
    let sy = step.1 as int;
    let n = size as int;
    if fx + k * sx < 0 {
        assert(fx + further * sx < 0) by (nonlinear_arith)
            requires
                0 <= fx,
                fx + k * sx < 0,
                1 <= k <= further,
        ;
    } else if fx + k * sx >= n {
        assert(fx + further * sx >= n) by (nonlinear_arith)
            requires
                fx < n,
                fx + k * sx >= n,
                1 <= k <= further,
        ;
    } else if fy + k * sy < 0 {
        assert(fy + further * sy < 0) by (nonlinear_arith)
            requires
                0 <= fy,
                fy + k * sy < 0,
                1 <= k <= further,
        ;
    } else {
        assert(fy + further * sy >= n) by (nonlinear_arith)
            requires
                fy < n,
                fy + k * sy >= n,
                1 <= k <= further,
        ;
    }
}

/// How far a point is from the edge of the map that the steps lead to, in
/// the first direction in which they lead anywhere; nothing for a point
/// beyond that edge.
pub open spec fn room_ahead(p: Antenna, step: (isize, isize), size: usize) -> int {
    let room = if step.0 > 0 {
        size - p.x
    } else if step.0 < 0 {
        p.x + 1
    } else if step.1 > 0 {
        size - p.y
    } else {
        p.y + 1
    };
    if room > 0 {
        room
    } else {
        0
    }
}

/// Adds to `set` the cells of the map that lie one step or more from the
/// antenna `from`.
pub fn mark_ray(set: &mut BitSet, from: Antenna, step: (isize, isize), size: usize)
    requires
        old(set).wf(),
        old(set).side() == size,
        3 * size <= isize::MAX,
        from.on_map(size as isize),
        -size < step.0 < size,
        -size < step.1 < size,
        step.0 != 0 || step.1 != 0,
    ensures
        final(set).wf(),
        final(set).side() == size,
        final(set)@ == old(set)@.union(ray(from, step, size)),
{
    let mut p = from + step;
    let ghost mut k: int = 1;
    proof {
        assert(set@ =~= old(set)@.union(
            Set::new(
                |q: Position|
                    in_bounds(size, q) && exists|m: int|
                        1 <= m < 1 && #[trigger] ray_point(from, step, m) == coords_of(q),
            ),
        ));
    }
    while p.is_possible(size as isize)
        invariant
            set.wf(),
            set.side() == size,
            3 * size <= isize::MAX,
            from.on_map(size as isize),
            -size < step.0 < size,
            -size < step.1 < size,
            step.0 != 0 || step.1 != 0,
            k >= 1,
            (p.x as int, p.y as int) == ray_point(from, step, k),
            forall|m: int| 1 <= m < k ==> point_on_map(#[trigger] ray_point(from, step, m), size),
            set@ == old(set)@.union(
                Set::new(
                    |q: Position|
                        in_bounds(size, q) && exists|m: int|
                            1 <= m < k && #[trigger] ray_point(from, step, m) == coords_of(q),
                ),
            ),
        decreases room_ahead(p, step, size),
    {
        let cell: Position = (p.x as usize, p.y as usize);
        let ghost before = set@;
        set.insert(cell);
        proof {
            assert(ray_point(from, step, k) == coords_of(cell));
            assert(ray_point(from, step, k + 1) == (p.x + step.0, p.y + step.1)) by (nonlinear_arith)
                requires
                    (p.x as int, p.y as int) == ray_point(from, step, k),
            ;
            let grown = Set::new(
                |q: Position|
                    in_bounds(size, q) && exists|m: int|
                        1 <= m < k + 1 && #[trigger] ray_point(from, step, m) == coords_of(q),
            );
            let held = Set::new(
                |q: Position|
                    in_bounds(size, q) && exists|m: int|
                        1 <= m < k && #[trigger] ray_point(from, step, m) == coords_of(q),
            );
            assert forall|q: Position| grown.contains(q) <==> held.contains(q) || q == cell by {
                if grown.contains(q) {
                    let m = choose|m: int|
                        1 <= m < k + 1 && #[trigger] ray_point(from, step, m) == coords_of(q);
                    if m < k {
                        assert(held.contains(q));
                    }
                }
                if held.contains(q) {
                    let m = choose|m: int|
                        1 <= m < k && #[trigger] ray_point(from, step, m) == coords_of(q);
                    assert(1 <= m < k + 1);
                }
            }
            assert(set@ =~= old(set)@.union(grown));
        }
        let ghost last = p;
        p = p + step;
        proof {
            k = k + 1;
            assert(p.x == last.x + step.0);
            assert(p.y == last.y + step.1);
            assert(last.on_map(size as isize));
        }
    }
    proof {
        let held = Set::new(
            |q: Position|
                in_bounds(size, q) && exists|m: int|
                    1 <= m < k && #[trigger] ray_point(from, step, m) == coords_of(q),
        );
        assert forall|q: Position| ray(from, step, size).contains(q) implies held.contains(q) by {
            let m = choose|m: int| m >= 1 && #[trigger] ray_point(from, step, m) == coords_of(q);
            if m >= k {
                lemma_ray_leaves(from, step, size, k, m);
            }
        }
        assert(held =~= ray(from, step, size));
    }
}

/// The point on the line through two antennas at `m` times their distance
/// from the second, towards the first.
pub open spec fn line_point(a1: Antenna, a2: Antenna, m: int) -> (int, int) {
    (a2.x + m * (a1.x - a2.x), a2.y + m * (a1.y - a2.y))
}

/// The cells of the map of side `size` on the line through two antennas, at
/// a multiple of their distance from them.
pub open spec fn line_cells(a1: Antenna, a2: Antenna, size: usize) -> Set<Position> {
    Set::new(
        |p: Position|
            in_bounds(size, p) && exists|m: int| #[trigger] line_point(a1, a2, m) == coords_of(p),
    )
}

/// Adds to `set` the cells of the map on the line through two different
/// antennas, at a multiple of their distance from them.
pub fn mark_line(set: &mut BitSet, a1: Antenna, a2: Antenna, size: usize)
    requires
        old(set).wf(),
        old(set).side() == size,
        3 * size <= isize::MAX,
        a1.on_map(size as isize),
        a2.on_map(size as isize),
        a1 != a2,
    ensures
        final(set).wf(),
        final(set).side() == size,
        final(set)@ == old(set)@.union(line_cells(a1, a2, size)),
{
    let c1: Position = (a1.x as usize, a1.y as usize);
    let c2: Position = (a2.x as usize, a2.y as usize);
    set.insert(c1);
    set.insert(c2);
    let diff = a1 - a2;
    let back = (-diff.0, -diff.1);
    mark_ray(set, a2, back, size);
    mark_ray(set, a1, diff, size);
    proof {
        let line = line_cells(a1, a2, size);
        let all = Set::<Position>::empty().insert(c1).insert(c2).union(ray(a2, back, size)).union(
            ray(a1, diff, size),
        );
        let dx = a1.x - a2.x;
        let dy = a1.y - a2.y;
        assert forall|p: Position| line.contains(p) implies all.contains(p) by {
            let m = choose|m: int| #[trigger] line_point(a1, a2, m) == coords_of(p);
            if m == 0 {
                assert(m * dx == 0 && m * dy == 0) by (nonlinear_arith)
                    requires
                        m == 0,
                ;
                assert(p == c2);
            } else if m == 1 {
                assert(m * dx == dx && m * dy == dy) by (nonlinear_arith)
                    requires
                        m == 1,
                ;
                assert(p == c1);
            } else if m < 0 {
                assert(ray_point(a2, back, -m) == line_point(a1, a2, m)) by (nonlinear_arith)
                    requires
                        back.0 == -dx,
                        back.1 == -dy,
                        dx == a1.x - a2.x,
                        dy == a1.y - a2.y,
                ;
                assert(ray(a2, back, size).contains(p));
            } else {
                assert(ray_point(a1, diff, m - 1) == line_point(a1, a2, m)) by (nonlinear_arith)
                    requires
                        diff.0 == dx,
                        diff.1 == dy,
                        dx == a1.x - a2.x,
                        dy == a1.y - a2.y,
                ;
                assert(ray(a1, diff, size).contains(p));
            }
        }
        assert forall|p: Position| all.contains(p) implies line.contains(p) by {
            if p == c1 {
                assert(1 * dx == dx && 1 * dy == dy) by (nonlinear_arith);
                assert(line_point(a1, a2, 1) == coords_of(p));
            } else if p == c2 {
                assert(0 * dx == 0 && 0 * dy == 0) by (nonlinear_arith);
                assert(line_point(a1, a2, 0) == coords_of(p));
            } else if ray(a2, back, size).contains(p) {
                let k = choose|k: int| k >= 1 && #[trigger] ray_point(a2, back, k) == coords_of(p);
                assert(ray_point(a2, back, k) == line_point(a1, a2, -k)) by (nonlinear_arith)
                    requires
                        back.0 == -dx,
                        back.1 == -dy,
                        dx == a1.x - a2.x,
                        dy == a1.y - a2.y,
                ;
            } else {
                let k = choose|k: int| k >= 1 && #[trigger] ray_point(a1, diff, k) == coords_of(p);
                assert(ray_point(a1, diff, k) == line_point(a1, a2, k + 1)) by (nonlinear_arith)
                    requires
                        diff.0 == dx,
                        diff.1 == dy,
                        dx == a1.x - a2.x,
                        dy == a1.y - a2.y,
                ;
            }
        }
        assert(set@ =~= old(set)@.union(line));
    }
}

/// The cells of the map that a pair of antennas marks: the mirror point of
/// the second behind the first, or, for `whole_line`, every cell on the
/// line through the two at a multiple of their distance.
pub open spec fn pair_cells(a1: Antenna, a2: Antenna, size: usize, whole_line: bool) -> Set<
    Position,
> {
    if whole_line {
        line_cells(a1, a2, size)
    } else {
        Set::new(|p: Position| in_bounds(size, p) && mirror(a1, a2) == coords_of(p))
    }
}

/// Adds to `set` the cells that a pair of different antennas marks.
pub fn mark_pair(set: &mut BitSet, a1: Antenna, a2: Antenna, size: usize, whole_line: bool)
    requires
        old(set).wf(),
        old(set).side() == size,
        3 * size <= isize::MAX,
        a1.on_map(size as isize),
        a2.on_map(size as isize),
        a1 != a2,
    ensures
        final(set).wf(),
        final(set).side() == size,
        final(set)@ == old(set)@.union(pair_cells(a1, a2, size, whole_line)),
{
    if whole_line {
        mark_line(set, a1, a2, size);
    } else {
        let diff = a1 - a2;
        let mirrored = a1 + diff;
        if mirrored.is_possible(size as isize) {
            set.insert((mirrored.x as usize, mirrored.y as usize));
        }
        proof {
            assert(set@ =~= old(set)@.union(pair_cells(a1, a2, size, whole_line)));
        }
    }
}

/// Whether cell `p` is marked by a pair of antennas that comes before
/// (`gg`, `ii`, `jj`).
pub open spec fn found(
    data: Seq<Vec<Antenna>>,
    size: usize,
    whole_line: bool,
    p: Position,
    gg: int,
    ii: int,
    jj: int,
) -> bool {
    exists|g: int, i: int, j: int|
        #[trigger] pair_at(data, g, i, j) && earlier(g, i, j, gg, ii, jj) && pair_cells(
            data[g]@[i],
            data[g]@[j],
            size,
            whole_line,
        ).contains(p)
}

/// Whether cell `p` is marked by some pair of different antennas of one
/// group.
pub open spec fn is_marked(data: Seq<Vec<Antenna>>, size: usize, whole_line: bool, p: Position) -> bool {
    exists|g: int, i: int, j: int|
        #[trigger] pair_at(data, g, i, j) && pair_cells(
            data[g]@[i],
            data[g]@[j],
            size,
            whole_line,
        ).contains(p)
}

/// The cells of the map that the pairs of different antennas of one group
/// mark.
pub open spec fn marked_cells(data: Seq<Vec<Antenna>>, size: usize, whole_line: bool) -> Set<
    Position,
> {
    Set::new(|p: Position| is_marked(data, size, whole_line, p))
}

/// The number of cells that the pairs of different antennas of one group
/// mark.
pub fn count_marked(data: &Vec<Vec<Antenna>>, size: usize, whole_line: bool) -> (n: usize)
    requires
        size * size <= usize::MAX,
        3 * size <= isize::MAX,
        all_on_map(data@, size),
    ensures
        n == marked_cells(data@, size, whole_line).len(),
{
    let mut set = BitSet::new(size);
    let mut g: usize = 0;
    proof {
        assert(set@ =~= Set::new(|p: Position| found(data@, size, whole_line, p, 0, 0, 0)));
    }
    while g < data.len()
        invariant
            g <= data.len(),
            3 * size <= isize::MAX,
            all_on_map(data@, size),
            set.wf(),
            set.side() == size,
            set@ == Set::new(|p: Position| found(data@, size, whole_line, p, g as int, 0, 0)),
        decreases data.len() - g,
    {
        let group = &data[g];
        let mut i: usize = 0;
        while i < group.len()
            invariant
                g < data.len(),
                group@ == data@[g as int]@,
                i <= group.len(),
                3 * size <= isize::MAX,
                all_on_map(data@, size),
                set.wf(),
                set.side() == size,
                set@ == Set::new(
                    |p: Position| found(data@, size, whole_line, p, g as int, i as int, 0),
                ),
            decreases group.len() - i,
        {
            let mut j: usize = 0;
            while j < group.len()
                invariant
                    g < data.len(),
                    group@ == data@[g as int]@,
                    i < group.len(),
                    j <= group.len(),
                    3 * size <= isize::MAX,
                    all_on_map(data@, size),
                    set.wf(),
                    set.side() == size,
                    set@ == Set::new(
                        |p: Position|
                            found(data@, size, whole_line, p, g as int, i as int, j as int),
                    ),
                decreases group.len() - j,
            {
                let a1 = group[i];
                let a2 = group[j];
                let ghost before = set@;
                proof {
                    assert(data@[g as int]@[i as int].on_map(size as isize));
                    assert(data@[g as int]@[j as int].on_map(size as isize));
                }
                if a1 != a2 {
                    mark_pair(&mut set, a1, a2, size, whole_line);
                }
                proof {
                    assert forall|p: Position|
                        set@.contains(p) <==> found(
                            data@,
                            size,
                            whole_line,
                            p,
                            g as int,
                            i as int,
                            j + 1,
                        ) by {
                        if found(data@, size, whole_line, p, g as int, i as int, j + 1) {
                            let (g0, i0, j0) = choose|g0: int, i0: int, j0: int|
                                #[trigger] pair_at(data@, g0, i0, j0) && earlier(
                                    g0,
                                    i0,
                                    j0,
                                    g as int,
                                    i as int,
                                    j + 1,
                                ) && pair_cells(
                                    data@[g0]@[i0],
                                    data@[g0]@[j0],
                                    size,
                                    whole_line,
                                ).contains(p);
                            if earlier(g0, i0, j0, g as int, i as int, j as int) {
                                assert(found(
                                    data@,
                                    size,
                                    whole_line,
                                    p,
                                    g as int,
                                    i as int,
                                    j as int,
                                ));
                                assert(before.contains(p));
                            } else {
                                assert(g0 == g && i0 == i && j0 == j);
                            }
                        }
                        if set@.contains(p) {
                            if before.contains(p) {
                                assert(found(
                                    data@,
                                    size,
                                    whole_line,
                                    p,
                                    g as int,
                                    i as int,
                                    j as int,
                                ));
                                let (g0, i0, j0) = choose|g0: int, i0: int, j0: int|
                                    #[trigger] pair_at(data@, g0, i0, j0) && earlier(
                                        g0,
                                        i0,
                                        j0,
                                        g as int,
                                        i as int,
                                        j as int,
                                    ) && pair_cells(
                                        data@[g0]@[i0],
                                        data@[g0]@[j0],
                                        size,
                                        whole_line,
                                    ).contains(p);
                                assert(earlier(g0, i0, j0, g as int, i as int, j + 1));
                            } else {
                                assert(pair_at(data@, g as int, i as int, j as int));
                                assert(earlier(g as int, i as int, j as int, g as int, i as int, j + 1));
                            }
                        }
                    }
                    assert(set@ =~= Set::new(
                        |p: Position| found(data@, size, whole_line, p, g as int, i as int, j + 1),
                    ));
                }
                j += 1;
            }
            proof {
                assert forall|p: Position|
                    found(data@, size, whole_line, p, g as int, i as int, j as int) <==> found(
                        data@,
                        size,
                        whole_line,
                        p,
                        g as int,
                        i + 1,
                        0,
                    ) by {
                    if found(data@, size, whole_line, p, g as int, i as int, j as int) {
                        let (g0, i0, j0) = choose|g0: int, i0: int, j0: int|
                            #[trigger] pair_at(data@, g0, i0, j0) && earlier(
                                g0,
                                i0,
                                j0,
                                g as int,
                                i as int,
                                j as int,
                            ) && pair_cells(
                                data@[g0]@[i0],
                                data@[g0]@[j0],
                                size,
                                whole_line,
                            ).contains(p);
                        assert(earlier(g0, i0, j0, g as int, i + 1, 0));
                    }
                    if found(data@, size, whole_line, p, g as int, i + 1, 0) {
                        let (g0, i0, j0) = choose|g0: int, i0: int, j0: int|
                            #[trigger] pair_at(data@, g0, i0, j0) && earlier(
                                g0,
                                i0,
                                j0,
                                g as int,
                                i + 1,
                                0,
                            ) && pair_cells(
                                data@[g0]@[i0],
                                data@[g0]@[j0],
                                size,
                                whole_line,
                            ).contains(p);
                        assert(earlier(g0, i0, j0, g as int, i as int, j as int));
                    }
                }
                assert(set@ =~= Set::new(
                    |p: Position| found(data@, size, whole_line, p, g as int, i + 1, 0),
                ));
            }
            i += 1;
        }
        proof {
            assert forall|p: Position|
                found(data@, size, whole_line, p, g as int, i as int, 0) <==> found(
                    data@,
                    size,
                    whole_line,
                    p,
                    g + 1,
                    0,
                    0,
                ) by {
                if found(data@, size, whole_line, p, g as int, i as int, 0) {
                    let (g0, i0, j0) = choose|g0: int, i0: int, j0: int|
                        #[trigger] pair_at(data@, g0, i0, j0) && earlier(
                            g0,
                            i0,
                            j0,
                            g as int,
                            i as int,
                            0,
                        ) && pair_cells(data@[g0]@[i0], data@[g0]@[j0], size, whole_line).contains(
                            p,
                        );
                    assert(earlier(g0, i0, j0, g + 1, 0, 0));
                }
                if found(data@, size, whole_line, p, g + 1, 0, 0) {
                    let (g0, i0, j0) = choose|g0: int, i0: int, j0: int|
                        #[trigger] pair_at(data@, g0, i0, j0) && earlier(g0, i0, j0, g + 1, 0, 0)
                            && pair_cells(
                            data@[g0]@[i0],
                            data@[g0]@[j0],
                            size,
                            whole_line,
                        ).contains(p);
                    assert(earlier(g0, i0, j0, g as int, i as int, 0));
                }
            }
            assert(set@ =~= Set::new(|p: Position| found(data@, size, whole_line, p, g + 1, 0, 0)));
        }
        g += 1;
    }
    proof {
        assert forall|p: Position|
            found(data@, size, whole_line, p, g as int, 0, 0) <==> is_marked(
                data@,
                size,
                whole_line,
                p,
            ) by {
            if is_marked(data@, size, whole_line, p) {
                let (g0, i0, j0) = choose|g0: int, i0: int, j0: int|
                    #[trigger] pair_at(data@, g0, i0, j0) && pair_cells(
                        data@[g0]@[i0],
                        data@[g0]@[j0],
                        size,
                        whole_line,
                    ).contains(p);
                assert(earlier(g0, i0, j0, g as int, 0, 0));
            }
        }
        assert(set@ =~= marked_cells(data@, size, whole_line));
    }
    set.len()
}

/// The number of cells of the map that are mirror points of two different
/// antennas of one group.
pub fn part1(data: &Vec<Vec<Antenna>>, size: usize) -> (n: usize)
    requires
        size * size <= usize::MAX,
        3 * size <= isize::MAX,
        all_on_map(data@, size),
    ensures
        n == marked_cells(data@, size, false).len(),
{
    count_marked(data, size, false)
}

/// The number of cells of the map that lie on the line through two
/// different antennas of one group, at a multiple of their distance.
pub fn part2(data: &Vec<Vec<Antenna>>, size: usize) -> (n: usize)
    requires
        size * size <= usize::MAX,
        3 * size <= isize::MAX,
        all_on_map(data@, size),
    ensures
        n == marked_cells(data@, size, true).len(),
{
    count_marked(data, size, true)
}

/// The character that marks a cell without an antenna.
pub const NO_ANTENNA: char = '.';

/// The place of a letter in the list of the letters found so far, if it
/// is there.
pub fn find_letter(letters: &Vec<char>, c: char) -> (r: Option<usize>)
    ensures
        match r {
            Some(at) => at < letters@.len() && letters@[at as int] == c,
            None => !letters@.contains(c),
        },
{
    let mut i: usize = 0;
    while i < letters.len()
        invariant
            i <= letters.len(),
            forall|k: int| 0 <= k < i ==> letters@[k] != c,
        decreases letters.len() - i,
    {
        if letters[i] == c {
            return Some(i);
        }
        i += 1;
    }
    None
}

/// Whether the antennas of `data` are those of the cells of the square map
/// `rows` that come before row `r` and column `c` in reading order, one
/// group for each letter, with `letters` naming the letter of each group.
pub open spec fn groups_cover(
    rows: Seq<Vec<char>>,
    data: Seq<Vec<Antenna>>,
    letters: Seq<char>,
    r: int,
    c: int,
) -> bool {
    &&& data.len() == letters.len()
    &&& letters.no_duplicates()
    &&& !letters.contains(NO_ANTENNA)
    &&& forall|g: int| 0 <= g < data.len() ==> (#[trigger] data[g])@.len() > 0
    &&& forall|g: int, k: int|
        0 <= g < data.len() && 0 <= k < data[g]@.len() ==> {
            let a = #[trigger] data[g]@[k];
            &&& 0 <= a.x < rows.len()
            &&& 0 <= a.y < rows.len()
            &&& (a.x < r || (a.x == r && a.y < c))
            &&& rows[a.x as int]@[a.y as int] == letters[g]
        }
    &&& forall|g: int, k: int, m: int|
        0 <= g < data.len() && 0 <= k < m < data[g]@.len() ==> {
            let a = #[trigger] data[g]@[k];
            let b = #[trigger] data[g]@[m];
            a.x < b.x || (a.x == b.x && a.y < b.y)
        }
    &&& forall|i: int, j: int|
        0 <= i < rows.len() && 0 <= j < rows.len() && (i < r || (i == r && j < c)) && rows[i]@[j]
            != NO_ANTENNA ==> exists|g: int, k: int|
            0 <= g < data.len() && 0 <= k < data[g]@.len() && #[trigger] data[g]@[k] == (Antenna {
                x: i as isize,
                y: j as isize,
            })
}

/// Groups the antennas of a square map by their letters: every cell but
/// those marked `.` holds an antenna, whose coordinates are its row and
/// its column. The groups stand in the order in which their letters come
/// up first, and the antennas of a group in reading order.
pub fn load_data(rows: &Vec<Vec<char>>) -> (r: (Vec<Vec<Antenna>>, Vec<char>))
    requires
        crate::patrol::load::is_square(rows@),
        rows@.len() <= isize::MAX,
    ensures
        groups_cover(rows@, r.0@, r.1@, rows@.len() as int, 0),
        all_on_map(r.0@, rows@.len() as usize),
{
    let size = rows.len();
    let mut antennas: Vec<Vec<Antenna>> = Vec::new();
    let mut letters: Vec<char> = Vec::new();
    let mut i: usize = 0;
    while i < size
        invariant
            crate::patrol::load::is_square(rows@),
            size == rows@.len(),
            size <= isize::MAX,
            i <= size,
            groups_cover(rows@, antennas@, letters@, i as int, 0),
        decreases size - i,
    {
        let mut j: usize = 0;
        while j < size
            invariant
                crate::patrol::load::is_square(rows@),
                size == rows@.len(),
                size <= isize::MAX,
                i < size,
                j <= size,
                groups_cover(rows@, antennas@, letters@, i as int, j as int),
            decreases size - j,
        {
            let c = rows[i][j];
            let ghost before = antennas@;
            let ghost names = letters@;
            if c != NO_ANTENNA {
                let antenna = Antenna::new(i as isize, j as isize);
                match find_letter(&letters, c) {
                    Some(index) => {
                        let ghost group = antennas@[index as int]@;
                        antennas[index].push(antenna);
                        proof {
                            assert(antennas@[index as int]@ == group.push(antenna));
                            assert forall|g: int| 0 <= g < antennas@.len() && g != index implies antennas@[g]
                                == before[g] by {}
                            assert forall|g: int, k: int|
                                0 <= g < antennas@.len() && 0 <= k < antennas@[g]@.len() implies {
                                let a = #[trigger] antennas@[g]@[k];
                                &&& 0 <= a.x < rows@.len()
                                &&& 0 <= a.y < rows@.len()
                                &&& (a.x < i || (a.x == i && a.y < j + 1))
                                &&& rows@[a.x as int]@[a.y as int] == letters@[g]
                            } by {
                                if g == index && k == group.len() {
                                } else {
                                    assert(antennas@[g]@[k] == before[g]@[k]);
                                }
                            }
                            assert forall|g: int, k: int, m: int|
                                0 <= g < antennas@.len() && 0 <= k < m < antennas@[g]@.len() implies {
                                let a = #[trigger] antennas@[g]@[k];
                                let b = #[trigger] antennas@[g]@[m];
                                a.x < b.x || (a.x == b.x && a.y < b.y)
                            } by {
                                if g == index && m == group.len() {
                                    assert(antennas@[g]@[k] == before[g]@[k]);
                                } else {
                                    assert(antennas@[g]@[k] == before[g]@[k]);
                                    assert(antennas@[g]@[m] == before[g]@[m]);
                                }
                            }
                            assert forall|a: int, b: int|
                                0 <= a < rows@.len() && 0 <= b < rows@.len() && (a < i || (a == i && b
                                    < j + 1)) && rows@[a]@[b] != NO_ANTENNA implies exists|
                                g: int,
                                k: int,
                            |
                                0 <= g < antennas@.len() && 0 <= k < antennas@[g]@.len()
                                    && #[trigger] antennas@[g]@[k] == (Antenna {
                                    x: a as isize,
                                    y: b as isize,
                                }) by {
                                if a == i && b == j {
                                    assert(antennas@[index as int]@[group.len() as int] == antenna);
                                } else {
                                    let (g, k) = choose|g: int, k: int|
                                        0 <= g < before.len() && 0 <= k < before[g]@.len()
                                            && #[trigger] before[g]@[k] == (Antenna {
                                            x: a as isize,
                                            y: b as isize,
                                        });
                                    assert(antennas@[g]@[k] == before[g]@[k]);
                                }
                            }
                        }
                    },
                    None => {
                        let mut list: Vec<Antenna> = Vec::new();
                        list.push(antenna);
                        antennas.push(list);
                        letters.push(c);
                        proof {
                            assert(antennas@ == before.push(list));
                            assert(letters@ == names.push(c));
                            assert forall|a: int, b: int|
                                0 <= a < b < letters@.len() implies letters@[a] != letters@[b] by {
                                if b == names.len() {
                                    assert(names.contains(names[a]));
                                }
                            }
                            assert(!letters@.contains(NO_ANTENNA)) by {
                                if letters@.contains(NO_ANTENNA) {
                                    let k = choose|k: int|
                                        0 <= k < letters@.len() && letters@[k] == NO_ANTENNA;
                                    if k < names.len() {
                                        assert(names.contains(names[k]));
                                    }
                                }
                            }
                            assert forall|g: int, k: int|
                                0 <= g < antennas@.len() && 0 <= k < antennas@[g]@.len() implies {
                                let a = #[trigger] antennas@[g]@[k];
                                &&& 0 <= a.x < rows@.len()
                                &&& 0 <= a.y < rows@.len()
                                &&& (a.x < i || (a.x == i && a.y < j + 1))
                                &&& rows@[a.x as int]@[a.y as int] == letters@[g]
                            } by {
                                if g < before.len() {
                                    assert(antennas@[g]@[k] == before[g]@[k]);
                                }
                            }
                            assert forall|g: int, k: int, m: int|
                                0 <= g < antennas@.len() && 0 <= k < m < antennas@[g]@.len() implies {
                                let a = #[trigger] antennas@[g]@[k];
                                let b = #[trigger] antennas@[g]@[m];
                                a.x < b.x || (a.x == b.x && a.y < b.y)
                            } by {
                                if g < before.len() {
                                    assert(antennas@[g]@[k] == before[g]@[k]);
                                    assert(antennas@[g]@[m] == before[g]@[m]);
                                }
                            }
                            assert forall|a: int, b: int|
                                0 <= a < rows@.len() && 0 <= b < rows@.len() && (a < i || (a == i && b
                                    < j + 1)) && rows@[a]@[b] != NO_ANTENNA implies exists|
                                g: int,
                                k: int,
                            |
                                0 <= g < antennas@.len() && 0 <= k < antennas@[g]@.len()
                                    && #[trigger] antennas@[g]@[k] == (Antenna {
                                    x: a as isize,
                                    y: b as isize,
                                }) by {
                                if a == i && b == j {
                                    assert(antennas@[before.len() as int]@[0] == antenna);
                                } else {
                                    let (g, k) = choose|g: int, k: int|
                                        0 <= g < before.len() && 0 <= k < before[g]@.len()
                                            && #[trigger] before[g]@[k] == (Antenna {
                                            x: a as isize,
                                            y: b as isize,
                                        });
                                    assert(antennas@[g]@[k] == before[g]@[k]);
                                }
                            }
                        }
                    },
                }
            }
            j += 1;
        }
        i += 1;
    }
    (antennas, letters)
}

} // verus!
