use vstd::arithmetic::div_mod::{
    lemma_fundamental_div_mod, lemma_fundamental_div_mod_converse, lemma_mod_pos_bound,
};
use vstd::prelude::*;

verus! {

/// One of the four ways the snake can travel across the board.
#[derive(PartialEq, Eq, Structural, Clone, Copy, Debug)]
pub enum Direction {
    Up,
    Right,
    Down,
    Left,
}

/// The direction that undoes `d`.
pub open spec fn opposite(d: Direction) -> Direction {
    match d {
        Direction::Up => Direction::Down,
        Direction::Right => Direction::Left,
        Direction::Down => Direction::Up,
        Direction::Left => Direction::Right,
    }
}

/// Row of a cell on a board `width` cells wide.
pub open spec fn row_of(width: int, index: int) -> int {
    index / width
}

/// Column of a cell on a board `width` cells wide.
pub open spec fn col_of(width: int, index: int) -> int {
    index % width
}

/// The cell reached from `index` by one move in `direction` on a
/// `width` x `width` torus: each row and each column wraps around on itself.
pub open spec fn next_index(width: int, index: int, direction: Direction) -> int {
    let row = row_of(width, index);
    let col = col_of(width, index);
    match direction {
        Direction::Right => row * width + (col + 1) % width,
        Direction::Left => row * width + (col + width - 1) % width,
        Direction::Up => ((row + width - 1) % width) * width + col,
        Direction::Down => ((row + 1) % width) * width + col,
    }
}

/// A cell index lies on the board: `0 <= index < width * width`.
pub open spec fn on_board(width: int, index: int) -> bool {
    0 <= index < width * width
}

/// A cell splits into its row and column, both below `width`.
pub proof fn lemma_cell_parts(width: int, index: int)
    requires
        width >= 1,
        on_board(width, index),
    ensures
        index == row_of(width, index) * width + col_of(width, index),
        0 <= row_of(width, index) < width,
        0 <= col_of(width, index) < width,
{
    lemma_fundamental_div_mod(index, width);
    lemma_mod_pos_bound(index, width);
    let q = index / width;
    let r = index % width;
    assert(q * width == width * q) by (nonlinear_arith);
    assert(0 <= q < width) by (nonlinear_arith)
        requires
            index == width * q + r,
            0 <= r < width,
            0 <= index < width * width,
            width >= 1,
    ;
}

/// A row and a column below `width` make a cell on the board, which splits back into them.
pub proof fn lemma_cell_of(width: int, row: int, col: int)
    requires
        0 <= row < width,
        0 <= col < width,
    ensures
        on_board(width, row * width + col),
        row_of(width, row * width + col) == row,
        col_of(width, row * width + col) == col,
{
    lemma_fundamental_div_mod_converse(row * width + col, width, row, col);
    assert(0 <= row * width + col < width * width) by (nonlinear_arith)
        requires
            0 <= row < width,
            0 <= col < width,
    ;
}

/// Reducing a value below `2 * m` takes off at most one `m`.
proof fn lemma_mod_once(x: int, m: int)
    requires
        m >= 1,
        0 <= x < 2 * m,
    ensures
        x % m == (if x < m {
            x
        } else {
            x - m
        }),
{
    if x < m {
        lemma_fundamental_div_mod_converse(x, m, 0, x);
    } else {
        lemma_fundamental_div_mod_converse(x, m, 1, x - m);
    }
}

/// The row and column of the cell one move away, written without `%`.
pub proof fn lemma_next_parts(width: int, index: int, direction: Direction)
    requires
        width >= 1,
        on_board(width, index),
    ensures
        ({
            let row = row_of(width, index);
            let col = col_of(width, index);
            let (nr, nc) = match direction {
                Direction::Right => (row, if col + 1 == width { 0 } else { col + 1 }),
                Direction::Left => (row, if col == 0 { width - 1 } else { col - 1 }),
                Direction::Up => (if row == 0 { width - 1 } else { row - 1 }, col),
                Direction::Down => (if row + 1 == width { 0 } else { row + 1 }, col),
            };
            &&& 0 <= nr < width
            &&& 0 <= nc < width
            &&& next_index(width, index, direction) == nr * width + nc
        }),
{
    lemma_cell_parts(width, index);
    let row = row_of(width, index);
    let col = col_of(width, index);
    lemma_mod_once(col + 1, width);
    lemma_mod_once(col + width - 1, width);
    lemma_mod_once(row + width - 1, width);
    lemma_mod_once(row + 1, width);
}

/// Every move keeps the snake on the board.
pub proof fn lemma_next_on_board(width: int, index: int, direction: Direction)
    requires
        width >= 1,
        on_board(width, index),
    ensures
        on_board(width, next_index(width, index, direction)),
{
    lemma_next_parts(width, index, direction);
    let row = row_of(width, index);
    let col = col_of(width, index);
    let (nr, nc) = match direction {
        Direction::Right => (row, if col + 1 == width { 0 } else { col + 1 }),
        Direction::Left => (row, if col == 0 { width - 1 } else { col - 1 }),
        Direction::Up => (if row == 0 { width - 1 } else { row - 1 }, col),
        Direction::Down => (if row + 1 == width { 0 } else { row + 1 }, col),
    };
    lemma_cell_of(width, nr, nc);
}

/// Leaving an edge re-enters at the opposite edge of the same row or column:
/// right from the last column gives the first column of that row, left from
/// the first column gives the last one, up from the top row gives the same
/// column in the bottom row, and down from the bottom row the same column in
/// the top row.
pub proof fn lemma_edges_wrap(width: int, index: int)
    requires
        width >= 1,
        on_board(width, index),
    ensures
        col_of(width, index) == width - 1 ==> next_index(width, index, Direction::Right)
            == row_of(width, index) * width,
        col_of(width, index) == 0 ==> next_index(width, index, Direction::Left) == row_of(
            width,
            index,
        ) * width + width - 1,
        row_of(width, index) == 0 ==> next_index(width, index, Direction::Up) == (width - 1)
            * width + col_of(width, index),
        row_of(width, index) == width - 1 ==> next_index(width, index, Direction::Down)
            == col_of(width, index),
{
    lemma_next_parts(width, index, Direction::Right);
    lemma_next_parts(width, index, Direction::Left);
    lemma_next_parts(width, index, Direction::Up);
    lemma_next_parts(width, index, Direction::Down);
}

/// A move followed by the opposite move comes back to the starting cell.
pub proof fn lemma_move_back(width: int, index: int, direction: Direction)
    requires
        width >= 1,
        on_board(width, index),
    ensures
        next_index(width, next_index(width, index, direction), opposite(direction)) == index,
{
    lemma_cell_parts(width, index);
    lemma_next_parts(width, index, direction);
    let row = row_of(width, index);
    let col = col_of(width, index);
    let (nr, nc) = match direction {
        Direction::Right => (row, if col + 1 == width { 0 } else { col + 1 }),
        Direction::Left => (row, if col == 0 { width - 1 } else { col - 1 }),
        Direction::Up => (if row == 0 { width - 1 } else { row - 1 }, col),
        Direction::Down => (if row + 1 == width { 0 } else { row + 1 }, col),
    };
    lemma_cell_of(width, nr, nc);
    lemma_next_parts(width, nr * width + nc, opposite(direction));
}

/// The cell one move from `index` in `direction`, on a `width` x `width` torus.
pub fn next_cell_index(width: usize, index: usize, direction: Direction) -> (r: usize)
    requires
        width >= 1,
        width * width <= usize::MAX,
        on_board(width as int, index as int),
    ensures
        r == next_index(width as int, index as int, direction),
        on_board(width as int, r as int),
{
    let row = index / width;
    let col = index % width;
    proof {
        lemma_cell_parts(width as int, index as int);
        lemma_next_parts(width as int, index as int, direction);
    }
    let (new_row, new_col): (usize, usize) = match direction {
        Direction::Right => (row, if col + 1 == width { 0 } else { col + 1 }),
        Direction::Left => (row, if col == 0 { width - 1 } else { col - 1 }),
        Direction::Up => (if row == 0 { width - 1 } else { row - 1 }, col),
        Direction::Down => (if row + 1 == width { 0 } else { row + 1 }, col),
    };
    proof {
        lemma_cell_of(width as int, new_row as int, new_col as int);
    }
    new_row * width + new_col
}

} // verus!
