use vstd::prelude::*;
use crate::patrol::load::is_square;

verus! {

/// The number of columns `c` below `cols` for which `wanted` holds of the
/// cell in row `r` and column `c`.
pub open spec fn row_count(r: int, cols: nat, wanted: spec_fn(int, int) -> bool) -> nat
    decreases cols,
{
    if cols == 0 {
        0
    } else {
        row_count(r, (cols - 1) as nat, wanted) + if wanted(r, cols - 1) {
            1nat
        } else {
            0nat
        }
    }
}

/// The number of cells in the first `rows` rows and the first `cols`
/// columns for which `wanted` holds.
pub open spec fn grid_count(rows: nat, cols: nat, wanted: spec_fn(int, int) -> bool) -> nat
    decreases rows,
{
    if rows == 0 {
        0
    } else {
        grid_count((rows - 1) as nat, cols, wanted) + row_count(rows - 1, cols, wanted)
    }
}

/// No more cells are counted than there are.
pub proof fn lemma_grid_count_bounded(rows: nat, cols: nat, wanted: spec_fn(int, int) -> bool)
    ensures
        grid_count(rows, cols, wanted) <= rows * cols,
    decreases rows,
{
    if rows > 0 {
        lemma_grid_count_bounded((rows - 1) as nat, cols, wanted);
        lemma_row_count_bounded(rows - 1, cols, wanted);
        assert((rows - 1) * cols + cols == rows * cols) by (nonlinear_arith);
    }
}

/// No more cells of a row are counted than there are.
pub proof fn lemma_row_count_bounded(r: int, cols: nat, wanted: spec_fn(int, int) -> bool)
    ensures
        row_count(r, cols, wanted) <= cols,
    decreases cols,
{
    if cols > 0 {
        lemma_row_count_bounded(r, (cols - 1) as nat, wanted);
    }
}

/// The letter on the cell in row `r` and column `c`.
pub open spec fn letter(data: Seq<Vec<char>>, r: int, c: int) -> char {
    data[r]@[c]
}

/// Whether the four cells from row `r` and column `c` on, each `dr` rows
/// and `dc` columns from the one before, spell the four letters.
pub open spec fn spells(
    data: Seq<Vec<char>>,
    r: int,
    c: int,
    dr: int,
    dc: int,
    word: (char, char, char, char),
) -> bool {
    &&& letter(data, r, c) == word.0
    &&& letter(data, r + dr, c + dc) == word.1
    &&& letter(data, r + 2 * dr, c + 2 * dc) == word.2
    &&& letter(data, r + 3 * dr, c + 3 * dc) == word.3
}

/// Whether the four cells spell the word forwards or backwards.
pub open spec fn word_at(data: Seq<Vec<char>>, r: int, c: int, dr: int, dc: int) -> bool {
    spells(data, r, c, dr, dc, ('X', 'M', 'A', 'S')) || spells(
        data,
        r,
        c,
        dr,
        dc,
        ('S', 'A', 'M', 'X'),
    )
}

/// The test for a cell from which the word runs on in steps of `dr` rows
/// and `dc` columns; the cell is `shift` columns to the right of the one
/// that is counted.
pub open spec fn word_from(data: Seq<Vec<char>>, dr: int, dc: int, shift: int) -> spec_fn(
    int,
    int,
) -> bool {
    |r: int, c: int| word_at(data, r, c + shift, dr, dc)
}

/// The step from column to column: one to the left, or `dc` to the right.
pub open spec fn column_step(dc: usize, left: bool) -> int {
    if left {
        -1
    } else {
        dc as int
    }
}

/// Whether the four cells from row `r` and column `c` on spell the word,
/// forwards or backwards.
fn is_word_at(data: &Vec<Vec<char>>, r: usize, c: usize, dr: usize, dc: usize, left: bool) -> (found:
    bool)
    requires
        is_square(data@),
        dr <= 1,
        dc <= 1,
        r + 3 * dr < data@.len(),
        c < data@.len(),
        left ==> c >= 3,
        !left ==> c + 3 * dc < data@.len(),
    ensures
        found == word_at(data@, r as int, c as int, dr as int, column_step(dc, left)),
{
    let side = data.len();
    assert(side == data@.len());
    let c1 = if left { c - 1 } else { c + dc };
    let c2 = if left { c - 2 } else { c + 2 * dc };
    let c3 = if left { c - 3 } else { c + 3 * dc };
    let a = data[r][c];
    let b = data[r + dr][c1];
    let m = data[r + 2 * dr][c2];
    let z = data[r + 3 * dr][c3];
    (a == 'X' && b == 'M' && m == 'A' && z == 'S') || (a == 'S' && b == 'A' && m == 'M' && z
        == 'X')
}

/// Counts the cells in the first `rows` rows and the first `cols` columns
/// from which the word runs on, forwards or backwards, in steps of `dr`
/// rows and of one column to the left or `dc` columns to the right; a run
/// to the left starts three columns to the right of the cell.
fn count_words(data: &Vec<Vec<char>>, rows: usize, cols: usize, dr: usize, dc: usize, left: bool) -> (result:
    usize)
    requires
        is_square(data@),
        data@.len() * data@.len() <= usize::MAX,
        dr <= 1,
        dc <= 1,
        rows == 0 || rows + 3 * dr <= data@.len(),
        cols == 0 || (if left {
            cols + 3 <= data@.len()
        } else {
            cols + 3 * dc <= data@.len()
        }),
    ensures
        result == grid_count(
            rows as nat,
            cols as nat,
            word_from(data@, dr as int, column_step(dc, left), if left { 3 } else { 0 }),
        ),
{
    let ghost wanted = word_from(data@, dr as int, column_step(dc, left), if left { 3 } else { 0 });
    let shift: usize = if left { 3 } else { 0 };
    let mut result: usize = 0;
    let mut r: usize = 0;
    while r < rows
        invariant
            is_square(data@),
            data@.len() * data@.len() <= usize::MAX,
            dr <= 1,
            dc <= 1,
            shift == (if left { 3usize } else { 0usize }),
            rows == 0 || rows + 3 * dr <= data@.len(),
            cols == 0 || (if left {
                cols + 3 <= data@.len()
            } else {
                cols + 3 * dc <= data@.len()
            }),
            wanted == word_from(data@, dr as int, column_step(dc, left), shift as int),
            r <= rows,
            result == grid_count(r as nat, cols as nat, wanted),
        decreases rows - r,
    {
        let mut c: usize = 0;
        let ghost before = result;
        while c < cols
            invariant
                is_square(data@),
                data@.len() * data@.len() <= usize::MAX,
                dr <= 1,
                dc <= 1,
                shift == (if left { 3usize } else { 0usize }),
                rows + 3 * dr <= data@.len(),
                cols == 0 || (if left {
                    cols + 3 <= data@.len()
                } else {
                    cols + 3 * dc <= data@.len()
                }),
                wanted == word_from(data@, dr as int, column_step(dc, left), shift as int),
                r < rows,
                c <= cols,
                before == grid_count(r as nat, cols as nat, wanted),
                result == before + row_count(r as int, c as nat, wanted),
            decreases cols - c,
        {
            proof {
                lemma_grid_count_bounded((r + 1) as nat, cols as nat, wanted);
                lemma_row_count_bounded(r as int, (c + 1) as nat, wanted);
                lemma_row_count_grows(r as int, (c + 1) as nat, cols as nat, wanted);
                assert((r + 1) * cols <= data@.len() * data@.len()) by (nonlinear_arith)
                    requires
                        r + 1 <= data@.len(),
                        cols <= data@.len(),
                ;
            }
            let side = data.len();
            assert(side == data@.len());
            if is_word_at(data, r, c + shift, dr, dc, left) {
                result += 1;
            }
            c += 1;
        }
        r += 1;
    }
    result
}

/// The count over fewer columns is no more.
pub proof fn lemma_row_count_grows(r: int, k: nat, cols: nat, wanted: spec_fn(int, int) -> bool)
    requires
        k <= cols,
    ensures
        row_count(r, k, wanted) <= row_count(r, cols, wanted),
    decreases cols,
{
    if k < cols {
        lemma_row_count_grows(r, k, (cols - 1) as nat, wanted);
    }
}

/// The side of the grid less the three cells that the word takes up
/// beyond its first, or zero where the grid is smaller.
pub open spec fn room(side: nat) -> nat {
    if side >= 3 {
        (side - 3) as nat
    } else {
        0
    }
}

/// The side of the grid less three, or zero where the grid is smaller.
fn room_of(side: usize) -> (n: usize)
    ensures
        n == room(side as nat),
{
    if side >= 3 {
        side - 3
    } else {
        0
    }
}

/// The number of places where the word stands in a row of the grid, read
/// to the right or to the left.
pub fn find_vertical(data: &Vec<Vec<char>>) -> (result: usize)
    requires
        is_square(data@),
        data@.len() * data@.len() <= usize::MAX,
    ensures
        result == grid_count(data@.len(), room(data@.len()), word_from(data@, 0, 1, 0)),
{
    count_words(data, data.len(), room_of(data.len()), 0, 1, false)
}

/// The number of places where the word stands in a column of the grid,
/// read downwards or upwards.
pub fn find_horizontal(data: &Vec<Vec<char>>) -> (result: usize)
    requires
        is_square(data@),
        data@.len() * data@.len() <= usize::MAX,
    ensures
        result == grid_count(room(data@.len()), data@.len(), word_from(data@, 1, 0, 0)),
{
    count_words(data, room_of(data.len()), data.len(), 1, 0, false)
}

/// The number of places where the word stands on a slant down to the
/// right, read either way.
pub fn find_diagonal_right(data: &Vec<Vec<char>>) -> (result: usize)
    requires
        is_square(data@),
        data@.len() * data@.len() <= usize::MAX,
    ensures
        result == grid_count(room(data@.len()), room(data@.len()), word_from(data@, 1, 1, 0)),
{
    count_words(data, room_of(data.len()), room_of(data.len()), 1, 1, false)
}

/// The number of places where the word stands on a slant down to the
/// left, read either way.
pub fn find_diagonal_left(data: &Vec<Vec<char>>) -> (result: usize)
    requires
        is_square(data@),
        data@.len() * data@.len() <= usize::MAX,
    ensures
        result == grid_count(room(data@.len()), room(data@.len()), word_from(data@, 1, -1, 3)),
{
    count_words(data, room_of(data.len()), room_of(data.len()), 1, 1, true)
}

/// The number of places where the word stands in the grid, in a row, in a
/// column or on a slant, read either way.
pub fn part1(data: &Vec<Vec<char>>) -> (result: usize)
    requires
        is_square(data@),
        4 * (data@.len() * data@.len()) <= usize::MAX,
    ensures
        result == grid_count(data@.len(), room(data@.len()), word_from(data@, 0, 1, 0))
            + grid_count(room(data@.len()), data@.len(), word_from(data@, 1, 0, 0)) + grid_count(
            room(data@.len()),
            room(data@.len()),
            word_from(data@, 1, 1, 0),
        ) + grid_count(room(data@.len()), room(data@.len()), word_from(data@, 1, -1, 3)),
{
    let ghost n = data@.len();
    proof {
        lemma_grid_count_bounded(n, room(n), word_from(data@, 0, 1, 0));
        lemma_grid_count_bounded(room(n), n, word_from(data@, 1, 0, 0));
        lemma_grid_count_bounded(room(n), room(n), word_from(data@, 1, 1, 0));
        lemma_grid_count_bounded(room(n), room(n), word_from(data@, 1, -1, 3));
        assert(n * room(n) <= n * n) by (nonlinear_arith)
            requires
                room(n) <= n,
        ;
        assert(room(n) * n <= n * n) by (nonlinear_arith)
            requires
                room(n) <= n,
        ;
        assert(room(n) * room(n) <= n * n) by (nonlinear_arith)
            requires
                room(n) <= n,
        ;
    }
    find_vertical(data) + find_horizontal(data) + find_diagonal_right(data) + find_diagonal_left(
        data,
    )
}

/// The place of a letter of the word in a tally of four.
pub fn letter_to_index(c: char) -> (index: usize)
    requires
        c == 'M' || c == 'S' || c == 'X' || c == 'A',
    ensures
        index == (if c == 'M' {
            0int
        } else if c == 'S' {
            1int
        } else if c == 'X' {
            2int
        } else {
            3int
        }),
{
    if c == 'M' {
        0
    } else if c == 'S' {
        1
    } else if c == 'X' {
        2
    } else {
        3
    }
}

/// One where the letter is `wanted`, else nothing.
pub open spec fn one_if(letter: char, wanted: char) -> nat {
    if letter == wanted {
        1
    } else {
        0
    }
}

/// How many of the four cells at the corners of the cell in row `x` and
/// column `y` hold the letter `wanted`.
pub open spec fn corners_with(data: Seq<Vec<char>>, x: int, y: int, wanted: char) -> nat {
    one_if(letter(data, x - 1, y - 1), wanted) + one_if(letter(data, x - 1, y + 1), wanted)
        + one_if(letter(data, x + 1, y - 1), wanted) + one_if(letter(data, x + 1, y + 1), wanted)
}

/// Whether two slanted `MAS` cross on the cell in row `x` and column `y`:
/// the cell holds an `A`, its corners hold two `M` and two `S`, and
/// opposite corners differ.
pub open spec fn cross_at(data: Seq<Vec<char>>, x: int, y: int) -> bool {
    &&& letter(data, x, y) == 'A'
    &&& letter(data, x - 1, y - 1) != letter(data, x + 1, y + 1)
    &&& letter(data, x + 1, y - 1) != letter(data, x - 1, y + 1)
    &&& corners_with(data, x, y, 'M') == 2
    &&& corners_with(data, x, y, 'S') == 2
}

/// The test for a cell below and to the right of which two slanted `MAS`
/// cross.
pub open spec fn cross_from(data: Seq<Vec<char>>) -> spec_fn(int, int) -> bool {
    |i: int, j: int| cross_at(data, i + 1, j + 1)
}

/// One where the letter is `wanted`, else nothing.
fn tally(letter: char, wanted: char) -> (n: usize)
    ensures
        n == one_if(letter, wanted),
{
    if letter == wanted {
        1
    } else {
        0
    }
}

/// Whether two slanted `MAS` cross on the cell in row `x` and column `y`.
fn is_cross_at(data: &Vec<Vec<char>>, x: usize, y: usize) -> (found: bool)
    requires
        is_square(data@),
        1 <= x,
        1 <= y,
        x + 1 < data@.len(),
        y + 1 < data@.len(),
    ensures
        found == cross_at(data@, x as int, y as int),
{
    let side = data.len();
    assert(side == data@.len());
    let up_left = data[x - 1][y - 1];
    let up_right = data[x - 1][y + 1];
    let down_left = data[x + 1][y - 1];
    let down_right = data[x + 1][y + 1];
    if !(data[x][y] == 'A' && up_left != down_right && down_left != up_right) {
        return false;
    }
    let m = tally(up_left, 'M') + tally(up_right, 'M') + tally(down_left, 'M') + tally(
        down_right,
        'M',
    );
    let s = tally(up_left, 'S') + tally(up_right, 'S') + tally(down_left, 'S') + tally(
        down_right,
        'S',
    );
    m == 2 && s == 2
}

/// The side of the grid less its two outer rows, or zero where the grid is
/// smaller.
pub open spec fn inner(side: nat) -> nat {
    if side >= 2 {
        (side - 2) as nat
    } else {
        0
    }
}

/// The number of cells of the grid on which two slanted `MAS` cross.
pub fn find_cross_mas(data: &Vec<Vec<char>>) -> (result: usize)
    requires
        is_square(data@),
        data@.len() * data@.len() <= usize::MAX,
    ensures
        result == grid_count(inner(data@.len()), inner(data@.len()), cross_from(data@)),
{
    let side = data.len();
    let n: usize = if side >= 2 {
        side - 2
    } else {
        0
    };
    let ghost wanted = cross_from(data@);
    let mut result: usize = 0;
    let mut i: usize = 0;
    while i < n
        invariant
            is_square(data@),
            data@.len() * data@.len() <= usize::MAX,
            side == data@.len(),
            n == inner(side as nat),
            wanted == cross_from(data@),
            i <= n,
            result == grid_count(i as nat, n as nat, wanted),
        decreases n - i,
    {
        let mut j: usize = 0;
        let ghost before = result;
        while j < n
            invariant
                is_square(data@),
                data@.len() * data@.len() <= usize::MAX,
                side == data@.len(),
                n == inner(side as nat),
                wanted == cross_from(data@),
                i < n,
                j <= n,
                before == grid_count(i as nat, n as nat, wanted),
                result == before + row_count(i as int, j as nat, wanted),
            decreases n - j,
        {
            proof {
                lemma_grid_count_bounded((i + 1) as nat, n as nat, wanted);
                lemma_row_count_bounded(i as int, (j + 1) as nat, wanted);
                lemma_row_count_grows(i as int, (j + 1) as nat, n as nat, wanted);
                assert((i + 1) * n <= side * side) by (nonlinear_arith)
                    requires
                        i + 1 <= side,
                        n <= side,
                ;
            }
            if is_cross_at(data, i + 1, j + 1) {
                result += 1;
            }
            j += 1;
        }
        i += 1;
    }
    result
}

/// The number of cells of the grid on which two slanted `MAS` cross.
pub fn part2(data: &Vec<Vec<char>>) -> (result: usize)
    requires
        is_square(data@),
        data@.len() * data@.len() <= usize::MAX,
    ensures
        result == grid_count(inner(data@.len()), inner(data@.len()), cross_from(data@)),
{
    find_cross_mas(data)
}

} // verus!
