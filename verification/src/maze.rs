use vstd::prelude::*;

verus! {

use crate::grid::{Grid, lemma_flat_index_bound};

/// The maze grid: one symbol per cell, rectangular by construction.
///
/// Symbols: `' '` open, `'+'` wall corner, `'-'` horizontal wall,
/// `'|'` vertical wall, `'p'` player spawn, `'g'` goal, `'D'` locked door.
pub type Maze = Grid<char>;

/// An open floor cell.
pub open spec fn is_open(c: char) -> bool {
    c == ' '
}

/// A cell the pathfinder and the entities may traverse.
pub open spec fn is_walkable(c: char) -> bool {
    c == ' ' || c == 'p' || c == 'g'
}

/// A wall symbol: blocks rays and movement, never opened.
pub open spec fn is_wall(c: char) -> bool {
    c == '+' || c == '-' || c == '|'
}

/// Build a maze from explicit rows, as a hand-authored maze text gives
/// them. Returns the maze exactly when the rows are non-empty and
/// rectangular; a ragged or empty input is rejected.
pub fn from_rows(rows_in: &Vec<Vec<char>>) -> (r: Option<Maze>)
    ensures
        r is Some <==> {
            &&& rows_in@.len() > 0
            &&& rows_in@[0]@.len() > 0
            &&& forall|i: int|
                0 <= i < rows_in@.len() ==> #[trigger] rows_in@[i]@.len() == rows_in@[0]@.len()
        },
        r is Some ==> {
            &&& r->Some_0.wf()
            &&& r->Some_0.rows == rows_in@.len()
            &&& r->Some_0.cols == rows_in@[0]@.len()
            &&& forall|y: int, x: int|
                0 <= y < rows_in@.len() && 0 <= x < rows_in@[0]@.len()
                    ==> r->Some_0.at(y, x) == rows_in@[y]@[x]
        },
{
    if rows_in.len() == 0 {
        return None;
    }
    let cols: usize = rows_in[0].len();
    if cols == 0 {
        return None;
    }
    let rows: usize = rows_in.len();
    let mut cells: Vec<char> = Vec::new();
    let mut y: usize = 0;
    while y < rows
        invariant
            y <= rows,
            rows == rows_in@.len(),
            cols == rows_in@[0]@.len(),
            cols > 0,
            forall|i: int| 0 <= i < y ==> #[trigger] rows_in@[i]@.len() == cols,
            cells@.len() == y * cols,
            forall|y2: int, x2: int|
                0 <= y2 < y && 0 <= x2 < cols
                    ==> #[trigger] cells@[y2 * cols + x2] == rows_in@[y2]@[x2],
        decreases rows - y,
    {
        if rows_in[y].len() != cols {
            return None;
        }
        let mut x: usize = 0;
        while x < cols
            invariant
                x <= cols,
                y < rows,
                rows == rows_in@.len(),
                cols == rows_in@[0]@.len(),
                cols > 0,
                rows_in@[y as int]@.len() == cols,
                forall|i: int| 0 <= i < y ==> #[trigger] rows_in@[i]@.len() == cols,
                cells@.len() == y * cols + x,
                forall|y2: int, x2: int|
                    0 <= y2 < y && 0 <= x2 < cols
                        ==> #[trigger] cells@[y2 * cols + x2] == rows_in@[y2]@[x2],
                forall|x2: int|
                    0 <= x2 < x
                        ==> #[trigger] cells@[y as int * cols + x2] == rows_in@[y as int]@[x2],
            decreases cols - x,
        {
            cells.push(rows_in[y][x]);
            proof {
                assert forall|y2: int, x2: int|
                    0 <= y2 < y && 0 <= x2 < cols implies #[trigger] cells@[y2 * cols + x2]
                    == rows_in@[y2]@[x2] by {
                    lemma_pair_below(y2, x2, y as int, x as int, cols as int);
                }
                assert forall|x2: int|
                    0 <= x2 < x + 1 implies #[trigger] cells@[y as int * cols + x2]
                    == rows_in@[y as int]@[x2] by {
                }
            }
            x = x + 1;
        }
        proof {
            assert((y + 1) * cols == y * cols + cols) by (nonlinear_arith);
        }
        y = y + 1;
    }
    let m = Grid { rows, cols, cells };
    proof {
        assert forall|y2: int, x2: int|
            0 <= y2 < rows && 0 <= x2 < cols implies m.at(y2, x2) == rows_in@[y2]@[x2] by {
            lemma_flat_index_bound(y2, x2, rows as int, cols as int);
        }
    }
    Some(m)
}

/// Scale a maze up by an integer factor: each source cell becomes a
/// `factor` by `factor` block of the same symbol.
pub fn expand_maze(maze: &Maze, factor: usize) -> (out: Maze)
    requires
        maze.wf(),
        factor >= 1,
        maze.rows * factor <= 10000,
        maze.cols * factor <= 10000,
    ensures
        out.wf(),
        out.rows == maze.rows * factor,
        out.cols == maze.cols * factor,
        forall|y: int, x: int|
            0 <= y < out.rows && 0 <= x < out.cols
                ==> out.at(y, x) == maze.at(y / factor as int, x / factor as int),
{
    let new_rows: usize = maze.rows() * factor;
    let new_cols: usize = maze.cols() * factor;
    let mut cells: Vec<char> = Vec::new();
    let mut y: usize = 0;
    while y < new_rows
        invariant
            maze.wf(),
            factor >= 1,
            new_rows == maze.rows * factor,
            new_cols == maze.cols * factor,
            new_rows <= 10000,
            new_cols <= 10000,
            y <= new_rows,
            cells@.len() == y * new_cols,
            forall|y2: int, x2: int|
                0 <= y2 < y && 0 <= x2 < new_cols
                    ==> #[trigger] cells@[y2 * new_cols + x2] == maze.at(
                    y2 / factor as int,
                    x2 / factor as int,
                ),
        decreases new_rows - y,
    {
        let sy: usize = y / factor;
        proof {
            lemma_quotient_bound(y as int, factor as int, maze.rows as int);
        }
        let mut x: usize = 0;
        while x < new_cols
            invariant
                maze.wf(),
                factor >= 1,
                new_rows == maze.rows * factor,
                new_cols == maze.cols * factor,
                new_rows <= 10000,
                new_cols <= 10000,
                y < new_rows,
                sy as int == y as int / factor as int,
                sy < maze.rows,
                x <= new_cols,
                cells@.len() == y * new_cols + x,
                forall|y2: int, x2: int|
                    0 <= y2 < y && 0 <= x2 < new_cols
                        ==> #[trigger] cells@[y2 * new_cols + x2] == maze.at(
                        y2 / factor as int,
                        x2 / factor as int,
                    ),
                forall|x2: int|
                    0 <= x2 < x
                        ==> #[trigger] cells@[y as int * new_cols + x2] == maze.at(
                        y as int / factor as int,
                        x2 / factor as int,
                    ),
            decreases new_cols - x,
        {
            let sx: usize = x / factor;
            proof {
                lemma_quotient_bound(x as int, factor as int, maze.cols as int);
            }
            let c: char = maze.read(sy, sx);
            cells.push(c);
            proof {
                assert forall|y2: int, x2: int|
                    0 <= y2 < y && 0 <= x2 < new_cols implies #[trigger] cells@[y2 * new_cols
                    + x2] == maze.at(y2 / factor as int, x2 / factor as int) by {
                    lemma_pair_below(y2, x2, y as int, x as int, new_cols as int);
                }
                assert forall|x2: int|
                    0 <= x2 < x + 1 implies #[trigger] cells@[y as int * new_cols + x2]
                    == maze.at(y as int / factor as int, x2 / factor as int) by {
                }
            }
            x = x + 1;
        }
        proof {
            assert((y + 1) * new_cols == y * new_cols + new_cols) by (nonlinear_arith);
        }
        y = y + 1;
    }
    let out = Grid { rows: new_rows, cols: new_cols, cells };
    proof {
        assert forall|y2: int, x2: int|
            0 <= y2 < new_rows && 0 <= x2 < new_cols implies out.at(y2, x2) == maze.at(
            y2 / factor as int,
            x2 / factor as int,
        ) by {
            lemma_flat_index_bound(y2, x2, new_rows as int, new_cols as int);
        }
    }
    out
}

/// A cell of an earlier row sits strictly below the write position
/// `y * cols + x` in the flat vector.
pub(crate) proof fn lemma_pair_below(y2: int, x2: int, y: int, x: int, cols: int)
    requires
        0 <= y2 < y,
        0 <= x2 < cols,
        0 <= x,
    ensures
        0 <= y2 * cols + x2 < y * cols + x,
{
    lemma_flat_index_bound(y2, x2, y, cols);
}

/// `y < rows * factor` bounds the quotient: `y / factor < rows`.
proof fn lemma_quotient_bound(y: int, factor: int, rows: int)
    requires
        0 <= y,
        1 <= factor,
        y < rows * factor,
    ensures
        0 <= y / factor < rows,
{
    vstd::arithmetic::div_mod::lemma_fundamental_div_mod(y, factor);
    vstd::arithmetic::div_mod::lemma_remainder_lower(y, factor);
    vstd::arithmetic::div_mod::lemma_div_pos_is_pos(y, factor);
    assert(y / factor < rows) by (nonlinear_arith)
        requires
            0 <= y,
            1 <= factor,
            y < rows * factor,
            y == factor * (y / factor) + y % factor,
            0 <= y % factor,
    ;
}

} // verus!
