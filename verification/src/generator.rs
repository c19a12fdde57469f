use vstd::prelude::*;

verus! {

use crate::grid::{Grid, count_true, lemma_count_all_false, lemma_count_grid_all_true,
    lemma_count_true_le_len, lemma_count_true_update, lemma_flat_index_bound};
use crate::maze::{Maze, lemma_pair_below};
use crate::path::adjacent;

/// The symbol the untouched maze template holds at (y, x): rooms at
/// odd/odd positions, corners at even/even, horizontal wall segments on
/// even rows, vertical wall segments on even columns.
pub open spec fn base_char(y: int, x: int) -> char {
    if y % 2 == 1 && x % 2 == 1 {
        ' '
    } else if y % 2 == 0 && x % 2 == 0 {
        '+'
    } else if y % 2 == 0 {
        '-'
    } else {
        '|'
    }
}

/// A wall segment strictly inside the grid: the only cells the carve
/// may open.
pub open spec fn interior_wall_slot(y: int, x: int, rows: int, cols: int) -> bool {
    &&& (y % 2) + (x % 2) == 1
    &&& 1 <= y < rows - 1
    &&& 1 <= x < cols - 1
}

/// Relies on rand::Rng::gen_range over rand::thread_rng: for a
/// non-empty range 0..n it samples a value of that range, so the result
/// is below n.
#[verifier::external_body]
pub(crate) fn random_below(n: usize) -> (r: usize)
    requires
        n > 0,
    ensures
        r < n,
{
    rand::Rng::gen_range(&mut rand::thread_rng(), 0..n)
}

/// Build the untouched template grid of `rows` by `cols` cells.
fn template(rows: usize, cols: usize) -> (g: Maze)
    requires
        1 <= rows <= 10000,
        1 <= cols <= 10000,
    ensures
        g.wf(),
        g.rows == rows,
        g.cols == cols,
        forall|y: int, x: int| 0 <= y < rows && 0 <= x < cols ==> g.at(y, x) == base_char(y, x),
{
    let mut cells: Vec<char> = Vec::new();
    let mut y: usize = 0;
    while y < rows
        invariant
            y <= rows,
            rows <= 10000,
            cols <= 10000,
            cols >= 1,
            cells@.len() == y * cols,
            forall|y2: int, x2: int|
                0 <= y2 < y && 0 <= x2 < cols
                    ==> #[trigger] cells@[y2 * cols + x2] == base_char(y2, x2),
        decreases rows - y,
    {
        let mut x: usize = 0;
        while x < cols
            invariant
                y < rows,
                x <= cols,
                rows <= 10000,
                cols <= 10000,
                cols >= 1,
                cells@.len() == y * cols + x,
                forall|y2: int, x2: int|
                    0 <= y2 < y && 0 <= x2 < cols
                        ==> #[trigger] cells@[y2 * cols + x2] == base_char(y2, x2),
                forall|x2: int|
                    0 <= x2 < x
                        ==> #[trigger] cells@[y as int * cols + x2] == base_char(y as int, x2),
            decreases cols - x,
        {
            let c: char = if y % 2 == 1 && x % 2 == 1 {
                ' '
            } else if y % 2 == 0 && x % 2 == 0 {
                '+'
            } else if y % 2 == 0 {
                '-'
            } else {
                '|'
            };
            cells.push(c);
            proof {
                assert forall|y2: int, x2: int|
                    0 <= y2 < y && 0 <= x2 < cols implies #[trigger] cells@[y2 * cols + x2]
                    == base_char(y2, x2) by {
                    lemma_pair_below(y2, x2, y as int, x as int, cols as int);
                }
            }
            x = x + 1;
        }
        proof {
            assert((y + 1) * cols == y * cols + cols) by (nonlinear_arith);
        }
        y = y + 1;
    }
    let g = Grid { rows, cols, cells };
    proof {
        assert forall|y2: int, x2: int|
            0 <= y2 < rows && 0 <= x2 < cols implies g.at(y2, x2) == base_char(y2, x2) by {
            lemma_flat_index_bound(y2, x2, rows as int, cols as int);
        }
    }
    g
}


/// The output-grid cell of carve-grid room `r` (column, row order).
pub open spec fn room_cell(r: (int, int)) -> (int, int) {
    (2 * r.0 + 1, 2 * r.1 + 1)
}

/// `r` is a room of a `w` by `h` carve grid.
pub open spec fn room_in_range(w: int, h: int, r: (int, int)) -> bool {
    0 <= r.0 < w && 0 <= r.1 < h
}

/// The j-th 4-neighbor of a room.
pub open spec fn room_neighbor(r: (int, int), j: int) -> (int, int) {
    if j == 0 {
        (r.0 + 1, r.1)
    } else if j == 1 {
        (r.0 - 1, r.1)
    } else if j == 2 {
        (r.0, r.1 + 1)
    } else {
        (r.0, r.1 - 1)
    }
}

/// Adjacent rooms whose separating wall segment has been carved open.
pub open spec fn rooms_linked(g: Maze, a: (int, int), b: (int, int)) -> bool {
    &&& ((a.0 == b.0 && (a.1 + 1 == b.1 || b.1 + 1 == a.1)) || (a.1 == b.1 && (a.0 + 1 == b.0
        || b.0 + 1 == a.0)))
    &&& g.at(a.1 + b.1 + 1, a.0 + b.0 + 1) == ' '
}

/// A path through the carved maze at room granularity: every step moves
/// to a 4-neighbor room through an opened wall.
pub open spec fn is_room_path(
    g: Maze,
    w: int,
    h: int,
    s: Seq<(int, int)>,
    a: (int, int),
    b: (int, int),
) -> bool {
    &&& s.len() > 0
    &&& s[0] == a
    &&& s[s.len() - 1] == b
    &&& forall|i: int| 0 <= i < s.len() ==> room_in_range(w, h, #[trigger] s[i])
    &&& forall|i: int| 1 <= i < s.len() ==> rooms_linked(g, s[i - 1], #[trigger] s[i])
}

/// Room `b` is reachable from room `a` through opened walls.
pub open spec fn room_connected(g: Maze, w: int, h: int, a: (int, int), b: (int, int)) -> bool {
    exists|s: Seq<(int, int)>| is_room_path(g, w, h, s, a, b)
}

/// The visited mark of a room given as unbounded coordinates.
pub open spec fn vis_at_room(visited: Grid<bool>, r: (int, int)) -> bool {
    visited.at(r.1, r.0)
}

/// Every in-range neighbor of the room carries the visited mark.
pub open spec fn room_expanded(visited: Grid<bool>, w: int, h: int, r: (int, int)) -> bool {
    forall|j: int|
        0 <= j < 4 ==> {
            let nb = #[trigger] room_neighbor(r, j);
            (0 <= nb.0 < w && 0 <= nb.1 < h) ==> visited.at(nb.1, nb.0)
        }
}

/// A room path stays valid when further cells are opened (or when cells
/// of room parity change): its side conditions read wall segments only.
#[verifier::rlimit(100)]
#[verifier::spinoff_prover]
proof fn lemma_room_path_monotone(
    g1: Maze,
    g2: Maze,
    w: int,
    h: int,
    s: Seq<(int, int)>,
    a: (int, int),
    b: (int, int),
)
    requires
        is_room_path(g1, w, h, s, a, b),
        g1.rows == 2 * h + 1,
        g1.cols == 2 * w + 1,
        forall|y: int, x: int|
            0 <= y < g1.rows && 0 <= x < g1.cols && (y % 2) + (x % 2) == 1 && #[trigger] g1.at(
                y,
                x,
            ) == ' ' ==> g2.at(y, x) == ' ',
    ensures
        is_room_path(g2, w, h, s, a, b),
{
    assert forall|i: int| 1 <= i < s.len() implies rooms_linked(g2, s[i - 1], #[trigger] s[i]) by {
        assert(rooms_linked(g1, s[i - 1], s[i]));
        let p = s[i - 1];
        let q = s[i];
        assert(room_in_range(w, h, p) && room_in_range(w, h, q));
        assert(0 <= p.1 + q.1 + 1 < g1.rows && 0 <= p.0 + q.0 + 1 < g1.cols);
        assert(((p.1 + q.1 + 1) % 2) + ((p.0 + q.0 + 1) % 2) == 1);
    }
}

/// Room connectivity is preserved by opening cells.
#[verifier::rlimit(100)]
#[verifier::spinoff_prover]
proof fn lemma_room_conn_monotone(g1: Maze, g2: Maze, w: int, h: int, a: (int, int), b: (int, int))
    requires
        room_connected(g1, w, h, a, b),
        g1.rows == 2 * h + 1,
        g1.cols == 2 * w + 1,
        forall|y: int, x: int|
            0 <= y < g1.rows && 0 <= x < g1.cols && (y % 2) + (x % 2) == 1 && #[trigger] g1.at(
                y,
                x,
            ) == ' ' ==> g2.at(y, x) == ' ',
    ensures
        room_connected(g2, w, h, a, b),
{
    let s = choose|s: Seq<(int, int)>| is_room_path(g1, w, h, s, a, b);
    lemma_room_path_monotone(g1, g2, w, h, s, a, b);
}

/// A connected room extends its path through one opened wall.
#[verifier::rlimit(100)]
#[verifier::spinoff_prover]
proof fn lemma_room_conn_extend(g: Maze, w: int, h: int, a: (int, int), b: (int, int), c: (int, int))
    requires
        room_connected(g, w, h, a, b),
        rooms_linked(g, b, c),
        room_in_range(w, h, c),
    ensures
        room_connected(g, w, h, a, c),
{
    let s = choose|s: Seq<(int, int)>| is_room_path(g, w, h, s, a, b);
    let s2 = s.push(c);
    assert(s2[s2.len() - 1] == c);
    assert forall|i: int| 0 <= i < s2.len() implies room_in_range(w, h, #[trigger] s2[i]) by {
        if i < s.len() {
            assert(s2[i] == s[i]);
        }
    }
    assert forall|i: int| 1 <= i < s2.len() implies rooms_linked(g, s2[i - 1], #[trigger] s2[i]) by {
        if i < s.len() {
            assert(s2[i] == s[i] && s2[i - 1] == s[i - 1]);
        } else {
            assert(s2[i] == c && s2[i - 1] == s[s.len() - 1]);
        }
    }
    assert(is_room_path(g, w, h, s2, a, c));
}

/// Each room is connected to itself.
#[verifier::rlimit(100)]
#[verifier::spinoff_prover]
proof fn lemma_room_conn_refl(g: Maze, w: int, h: int, a: (int, int))
    requires
        room_in_range(w, h, a),
    ensures
        room_connected(g, w, h, a, a),
{
    let s = seq![a];
    assert(is_room_path(g, w, h, s, a, a));
}

/// Room connectivity is symmetric: a room path reverses step by step.
#[verifier::rlimit(100)]
#[verifier::spinoff_prover]
pub proof fn lemma_room_conn_sym(g: Maze, w: int, h: int, a: (int, int), b: (int, int))
    requires
        room_connected(g, w, h, a, b),
    ensures
        room_connected(g, w, h, b, a),
{
    let s = choose|s: Seq<(int, int)>| is_room_path(g, w, h, s, a, b);
    let n = s.len() as int;
    let s2 = Seq::new(s.len(), |i: int| s[n - 1 - i]);
    assert(s2[0] == b);
    assert(s2[s2.len() - 1] == a);
    assert forall|i: int| 1 <= i < s2.len() implies rooms_linked(g, s2[i - 1], #[trigger] s2[i]) by {
        assert(s2[i] == s[n - 1 - i] && s2[i - 1] == s[n - i]);
        assert(rooms_linked(g, s[n - i - 1], s[n - i]));
    }
    assert(is_room_path(g, w, h, s2, b, a));
}

/// Room connectivity is transitive: two room paths concatenate.
#[verifier::rlimit(100)]
#[verifier::spinoff_prover]
pub proof fn lemma_room_conn_trans(
    g: Maze,
    w: int,
    h: int,
    a: (int, int),
    b: (int, int),
    c: (int, int),
)
    requires
        room_connected(g, w, h, a, b),
        room_connected(g, w, h, b, c),
    ensures
        room_connected(g, w, h, a, c),
{
    let s1 = choose|s: Seq<(int, int)>| is_room_path(g, w, h, s, a, b);
    let s2 = choose|s: Seq<(int, int)>| is_room_path(g, w, h, s, b, c);
    let s3 = s1 + s2.drop_first();
    assert(s3[0] == s1[0]);
    assert(s3.len() == s1.len() + s2.len() - 1);
    assert forall|i: int| 0 <= i < s3.len() implies room_in_range(w, h, #[trigger] s3[i]) by {
        if i < s1.len() {
            assert(s3[i] == s1[i]);
        } else {
            assert(s3[i] == s2[i - s1.len() + 1]);
        }
    }
    assert(s3[s3.len() - 1] == s2[s2.len() - 1]);
    assert forall|i: int| 1 <= i < s3.len() implies rooms_linked(g, s3[i - 1], #[trigger] s3[i]) by {
        if i < s1.len() {
            assert(s3[i] == s1[i] && s3[i - 1] == s1[i - 1]);
        } else if i == s1.len() {
            assert(s3[i - 1] == s1[s1.len() - 1] && s1[s1.len() - 1] == b);
            assert(s3[i] == s2[1]);
            assert(rooms_linked(g, s2[0], s2[1]));
        } else {
            assert(s3[i] == s2[i - s1.len() + 1] && s3[i - 1] == s2[i - s1.len()]);
        }
    }
    assert(is_room_path(g, w, h, s3, a, c));
}

/// With the visited set closed under room adjacency and the origin room
/// visited, induction along the grid shows every room is visited.
#[verifier::rlimit(100)]
#[verifier::spinoff_prover]
proof fn lemma_all_rooms_visited(visited: Grid<bool>, w: int, h: int, rx: int, ry: int)
    requires
        visited.rows == h,
        visited.cols == w,
        1 <= w,
        1 <= h,
        visited.at(0, 0),
        forall|v: (int, int)|
            room_in_range(w, h, v) && #[trigger] visited.at(v.1, v.0) ==> room_expanded(
                visited,
                w,
                h,
                v,
            ),
        0 <= rx < w,
        0 <= ry < h,
    ensures
        visited.at(ry, rx),
    decreases rx + ry,
{
    if rx == 0 && ry == 0 {
    } else if rx > 0 {
        lemma_all_rooms_visited(visited, w, h, rx - 1, ry);
        assert(room_expanded(visited, w, h, (rx - 1, ry)));
        assert(room_neighbor((rx - 1, ry), 0) == (rx, ry));
    } else {
        lemma_all_rooms_visited(visited, w, h, rx, ry - 1);
        assert(room_expanded(visited, w, h, (rx, ry - 1)));
        assert(room_neighbor((rx, ry - 1), 2) == (rx, ry));
    }
}

/// Growing the visited set keeps expanded rooms expanded.
#[verifier::rlimit(100)]
#[verifier::spinoff_prover]
proof fn lemma_room_expanded_monotone(v1: Grid<bool>, v2: Grid<bool>, w: int, h: int, r: (int, int))
    requires
        room_expanded(v1, w, h, r),
        forall|y: int, x: int| 0 <= y < h && 0 <= x < w && #[trigger] v1.at(y, x) ==> v2.at(y, x),
    ensures
        room_expanded(v2, w, h, r),
{
    assert forall|j: int| 0 <= j < 4 implies {
        let nb = #[trigger] room_neighbor(r, j);
        (0 <= nb.0 < w && 0 <= nb.1 < h) ==> v2.at(nb.1, nb.0)
    } by {
        let nb = room_neighbor(r, j);
        if 0 <= nb.0 < w && 0 <= nb.1 < h {
            assert(v1.at(nb.1, nb.0));
        }
    }
}

/// The carve invariant on the grid: every cell still holds its template
/// symbol, except interior wall segments that the carve has opened.
pub open spec fn carve_shape_ok(g: Maze, rows: int, cols: int) -> bool {
    &&& g.wf()
    &&& g.rows == rows
    &&& g.cols == cols
    &&& forall|y: int, x: int|
        0 <= y < rows && 0 <= x < cols ==> #[trigger] g.at(y, x) == base_char(y, x)
            || (g.at(y, x) == ' ' && interior_wall_slot(y, x, rows, cols))
}

/// Generate a perfect maze of `width_cells` by `height_cells` rooms by
/// an iterative randomized depth-first carve, then stamp the spawn
/// marker in room (1, 1) and the goal marker in the far corner room.
///
/// The output grid has `2 * height_cells + 1` rows and
/// `2 * width_cells + 1` cols; room cells sit at odd/odd coordinates,
/// corner cells at even/even stay walls, and the border is never opened.
#[verifier::rlimit(100)]
#[verifier::spinoff_prover]
pub fn generate_maze_text(width_cells: usize, height_cells: usize) -> (mz: Maze)
    requires
        1 <= width_cells <= 1000,
        1 <= height_cells <= 1000,
    ensures
        mz.wf(),
        mz.rows == 2 * height_cells + 1,
        mz.cols == 2 * width_cells + 1,
        forall|y: int, x: int|
            0 <= y < mz.rows && 0 <= x < mz.cols && y % 2 == 1 && x % 2 == 1
                ==> #[trigger] mz.at(y, x) == (if y == mz.rows - 2 && x == mz.cols - 2 {
                'g'
            } else if y == 1 && x == 1 {
                'p'
            } else {
                ' '
            }),
        forall|y: int, x: int|
            0 <= y < mz.rows && 0 <= x < mz.cols && y % 2 == 0 && x % 2 == 0
                ==> #[trigger] mz.at(y, x) == '+',
        forall|y: int, x: int|
            0 <= y < mz.rows && 0 <= x < mz.cols && (y % 2) + (x % 2) == 1
                ==> #[trigger] mz.at(y, x) == base_char(y, x) || (mz.at(y, x) == ' '
                && interior_wall_slot(y, x, mz.rows as int, mz.cols as int)),
        forall|v: (int, int)|
            room_in_range(width_cells as int, height_cells as int, v) ==> room_connected(
                mz,
                width_cells as int,
                height_cells as int,
                (0, 0),
                v,
            ),
        open_walls(mz).finite(),
        open_walls(mz).len() == width_cells * height_cells - 1,
{
    let w: usize = width_cells;
    let h: usize = height_cells;
    let rows: usize = 2 * h + 1;
    let cols: usize = 2 * w + 1;
    let mut g: Maze = template(rows, cols);
    proof {
        assert(w * h <= 1000 * 1000) by (nonlinear_arith)
            requires
                w <= 1000,
                h <= 1000,
        ;
        assert(w * h >= 1 * 1) by (nonlinear_arith)
            requires
                w >= 1,
                h >= 1,
        ;
        assert(h * w == w * h) by (nonlinear_arith);
    }
    let mut visited: Grid<bool> = Grid::new(h, w, false);
    let mut stack: Vec<(usize, usize)> = Vec::new();
    let mut vc: usize = 1;
    proof {
        lemma_flat_index_bound(0, 0, h as int, w as int);
        lemma_count_true_update(visited.cells@, 0);
        lemma_count_all_false(visited.cells@);
    }
    visited.set(0, 0, true);
    stack.push((0, 0));
    proof {
        lemma_count_init(g, visited, rows as int, cols as int);
        lemma_room_conn_refl(g, w as int, h as int, (0, 0));
        assert(stack@[0] == (0usize, 0usize));
        assert(stack@.contains((0usize, 0usize)));
        assert forall|v: (usize, usize)|
            v.0 < w && v.1 < h && #[trigger] visited.at(v.1 as int, v.0 as int) implies (v.0 == 0
            && v.1 == 0) by {
            if v.0 != 0 || v.1 != 0 {
                assert(!visited.at(v.1 as int, v.0 as int));
            }
        }
    }
    while stack.len() > 0
        invariant
            1 <= w <= 1000,
            1 <= h <= 1000,
            rows == 2 * h + 1,
            cols == 2 * w + 1,
            w * h <= 1000 * 1000,
            h * w == w * h,
            carve_shape_ok(g, rows as int, cols as int),
            visited.wf(),
            visited.rows == h,
            visited.cols == w,
            forall|i: int|
                0 <= i < stack@.len() ==> (#[trigger] stack@[i]).0 < w && stack@[i].1 < h
                    && visited.at(stack@[i].1 as int, stack@[i].0 as int),
            vc == count_true(visited.cells@),
            vc <= w * h,
            visited.at(0, 0),
            walls_ok(g, visited, rows as int, cols as int),
            open_walls(g).len() == vc - 1,
            forall|v: (usize, usize)|
                v.0 < w && v.1 < h && #[trigger] visited.at(v.1 as int, v.0 as int)
                    ==> room_connected(g, w as int, h as int, (0, 0), (v.0 as int, v.1 as int)),
            forall|v: (usize, usize)|
                v.0 < w && v.1 < h && #[trigger] visited.at(v.1 as int, v.0 as int)
                    && !stack@.contains(v) ==> room_expanded(
                    visited,
                    w as int,
                    h as int,
                    (v.0 as int, v.1 as int),
                ),
        decreases w * h - vc, stack@.len(),
    {
        let ghost stack0 = stack@;
        let ghost vis0 = visited;
        let ghost g0 = g;
        let cur: (usize, usize) = stack[stack.len() - 1];
        let _ = stack.pop();
        // Gather the unvisited 4-neighbors of the current room.
        let mut neighbors: Vec<(usize, usize)> = Vec::new();
        let mut j: usize = 0;
        while j < 4
            invariant
                j <= 4,
                w <= 1000,
                h <= 1000,
                cur.0 < w,
                cur.1 < h,
                visited.wf(),
                visited.rows == h,
                visited.cols == w,
                forall|i: int|
                    0 <= i < neighbors@.len() ==> (#[trigger] neighbors@[i]).0 < w
                        && neighbors@[i].1 < h && !visited.at(
                        neighbors@[i].1 as int,
                        neighbors@[i].0 as int,
                    ) && adjacent(cur, neighbors@[i]),
                forall|jj: int|
                    0 <= jj < j ==> ({
                        let nb = #[trigger] room_neighbor((cur.0 as int, cur.1 as int), jj);
                        (0 <= nb.0 < w && 0 <= nb.1 < h) ==> (visited.at(nb.1, nb.0)
                            || neighbors@.contains(((nb.0) as usize, (nb.1) as usize)))
                    }),
            decreases 4 - j,
        {
            let ghost nbs0 = neighbors@;
            let cx: i64 = cur.0 as i64;
            let cy: i64 = cur.1 as i64;
            let nxi: i64 = if j == 0 {
                cx + 1
            } else if j == 1 {
                cx - 1
            } else {
                cx
            };
            let nyi: i64 = if j == 2 {
                cy + 1
            } else if j == 3 {
                cy - 1
            } else {
                cy
            };
            if 0 <= nxi && nxi < w as i64 && 0 <= nyi && nyi < h as i64 {
                let nx: usize = nxi as usize;
                let ny: usize = nyi as usize;
                if !visited.read(ny, nx) {
                    neighbors.push((nx, ny));
                }
            }
            proof {
                assert((nxi as int, nyi as int) == room_neighbor(
                    (cur.0 as int, cur.1 as int),
                    j as int,
                ));
                assert forall|jj: int|
                    0 <= jj < j + 1 implies ({
                    let nb = #[trigger] room_neighbor((cur.0 as int, cur.1 as int), jj);
                    (0 <= nb.0 < w && 0 <= nb.1 < h) ==> (visited.at(nb.1, nb.0)
                        || neighbors@.contains(((nb.0) as usize, (nb.1) as usize)))
                }) by {
                    let nb = room_neighbor((cur.0 as int, cur.1 as int), jj);
                    if 0 <= nb.0 < w && 0 <= nb.1 < h {
                        if jj < j {
                            if !vis_at_room(visited, nb) {
                                let i = choose|i: int|
                                    0 <= i < nbs0.len() && nbs0[i] == ((nb.0) as usize, (
                                    nb.1) as usize);
                                assert(neighbors@[i] == ((nb.0) as usize, (nb.1) as usize));
                            }
                        } else {
                            if !visited.at(nb.1, nb.0) {
                                assert(neighbors@[neighbors@.len() - 1] == ((nb.0) as usize, (
                                nb.1) as usize));
                            }
                        }
                    }
                }
            }
            j = j + 1;
        }
        if neighbors.len() > 0 {
            stack.push(cur);
            let k: usize = random_below(neighbors.len());
            let next: (usize, usize) = neighbors[k];
            proof {
                lemma_flat_index_bound(next.1 as int, next.0 as int, h as int, w as int);
                lemma_count_true_update(visited.cells@, next.1 as int * w + next.0);
                lemma_count_true_le_len(visited.cells@.update(next.1 as int * w + next.0, true));
            }
            visited.set(next.1, next.0, true);
            vc = vc + 1;
            // Open the wall segment between the two rooms.
            let wall_y: usize = cur.1 + next.1 + 1;
            let wall_x: usize = cur.0 + next.0 + 1;
            proof {
                if cur.0 == next.0 {
                    assert(wall_y as int % 2 == 0);
                    assert(wall_x as int % 2 == 1);
                } else {
                    assert(wall_y as int % 2 == 1);
                    assert(wall_x as int % 2 == 0);
                }
                assert(interior_wall_slot(wall_y as int, wall_x as int, rows as int, cols as int));
            }
            g.set(wall_y, wall_x, ' ');
            stack.push(next);
            proof {
                lemma_carve_step(
                    g0,
                    g,
                    vis0,
                    visited,
                    stack0,
                    stack@,
                    cur,
                    next,
                    wall_y,
                    wall_x,
                    w,
                    h,
                    rows,
                    cols,
                );
                lemma_count_step(
                    g0,
                    g,
                    vis0,
                    visited,
                    cur,
                    next,
                    wall_y,
                    wall_x,
                    w,
                    h,
                    rows,
                    cols,
                );
            }
        } else {
            proof {
                let gw = w as int;
                let gh = h as int;
                let cur_i = (cur.0 as int, cur.1 as int);
                assert(room_expanded(visited, gw, gh, cur_i)) by {
                    assert forall|j2: int|
                        0 <= j2 < 4 implies ({
                        let nb = #[trigger] room_neighbor(cur_i, j2);
                        (0 <= nb.0 < gw && 0 <= nb.1 < gh) ==> visited.at(nb.1, nb.0)
                    }) by {
                        let nb = room_neighbor(cur_i, j2);
                        if 0 <= nb.0 < gw && 0 <= nb.1 < gh {
                            assert(!neighbors@.contains(((nb.0) as usize, (nb.1) as usize)));
                        }
                    }
                }
                assert forall|v: (usize, usize)|
                    v.0 < w && v.1 < h && #[trigger] visited.at(v.1 as int, v.0 as int)
                        && !stack@.contains(v) implies room_expanded(
                    visited,
                    gw,
                    gh,
                    (v.0 as int, v.1 as int),
                ) by {
                    if v.0 == cur.0 && v.1 == cur.1 {
                        assert(room_expanded(visited, gw, gh, cur_i));
                    } else {
                        if stack0.contains(v) {
                            let i = choose|i: int| 0 <= i < stack0.len() && stack0[i] == v;
                            if i == stack0.len() - 1 {
                                assert(v == cur);
                            } else {
                                assert(stack@[i] == v);
                            }
                            assert(false);
                        }
                        assert(room_expanded(visited, gw, gh, (v.0 as int, v.1 as int)));
                    }
                }
            }
        }
    }
    proof {
        lemma_carve_complete(g, visited, stack@, w, h, rows, cols);
    }
    let ghost g_pre = g;
    // Stamp the spawn and goal rooms.
    g.set(1, 1, 'p');
    g.set(rows - 2, cols - 2, 'g');
    proof {
        lemma_stamps_preserve_connectivity(g_pre, g, w, h, rows, cols);
        lemma_stamped_classification(g_pre, g, w, h, rows, cols);
        lemma_walls_ok_finite(g_pre, visited, rows as int, cols as int);
        lemma_count_finish(g_pre, g, rows, cols);
    }
    g
}

/// The classification of the stamped grid: rooms hold their marker or
/// stay open, corners stay walls, and wall segments are their template
/// symbol or carved open.
#[verifier::rlimit(100)]
#[verifier::spinoff_prover]
proof fn lemma_stamped_classification(
    g_pre: Maze,
    g: Maze,
    w: usize,
    h: usize,
    rows: usize,
    cols: usize,
)
    requires
        1 <= w <= 1000,
        1 <= h <= 1000,
        rows == 2 * h + 1,
        cols == 2 * w + 1,
        carve_shape_ok(g_pre, rows as int, cols as int),
        g.wf() && g.rows == rows && g.cols == cols,
        g.at(rows - 2, cols - 2) == 'g',
        !(rows - 2 == 1 && cols - 2 == 1) ==> g.at(1, 1) == 'p',
        forall|y: int, x: int|
            0 <= y < rows && 0 <= x < cols && !(y == 1 && x == 1) && !(y == rows - 2 && x == cols
                - 2) ==> #[trigger] g.at(y, x) == g_pre.at(y, x),
    ensures
        forall|y: int, x: int|
            0 <= y < rows && 0 <= x < cols && y % 2 == 1 && x % 2 == 1 ==> #[trigger] g.at(y, x)
                == (if y == rows - 2 && x == cols - 2 {
                'g'
            } else if y == 1 && x == 1 {
                'p'
            } else {
                ' '
            }),
        forall|y: int, x: int|
            0 <= y < rows && 0 <= x < cols && y % 2 == 0 && x % 2 == 0 ==> #[trigger] g.at(y, x)
                == '+',
        forall|y: int, x: int|
            0 <= y < rows && 0 <= x < cols && (y % 2) + (x % 2) == 1 ==> #[trigger] g.at(y, x)
                == base_char(y, x) || (g.at(y, x) == ' ' && interior_wall_slot(
                y,
                x,
                rows as int,
                cols as int,
            )),
{
    assert forall|y: int, x: int|
        0 <= y < rows && 0 <= x < cols && y % 2 == 1 && x % 2 == 1 implies #[trigger] g.at(y, x)
        == (if y == rows - 2 && x == cols - 2 {
        'g'
    } else if y == 1 && x == 1 {
        'p'
    } else {
        ' '
    }) by {
        if !(y == rows - 2 && x == cols - 2) && !(y == 1 && x == 1) {
            assert(g.at(y, x) == g_pre.at(y, x));
            assert(g_pre.at(y, x) == base_char(y, x) || (g_pre.at(y, x) == ' '
                && interior_wall_slot(y, x, rows as int, cols as int)));
        }
    }
    assert forall|y: int, x: int|
        0 <= y < rows && 0 <= x < cols && y % 2 == 0 && x % 2 == 0 implies #[trigger] g.at(y, x)
        == '+' by {
        assert(g.at(y, x) == g_pre.at(y, x));
    }
    assert forall|y: int, x: int|
        0 <= y < rows && 0 <= x < cols && (y % 2) + (x % 2) == 1 implies #[trigger] g.at(y, x)
        == base_char(y, x) || (g.at(y, x) == ' ' && interior_wall_slot(
        y,
        x,
        rows as int,
        cols as int,
    )) by {
        assert(g.at(y, x) == g_pre.at(y, x));
    }
}

/// When the carve stack has emptied, every room has been visited, and
/// so every room is connected to the origin room.
#[verifier::rlimit(100)]
#[verifier::spinoff_prover]
proof fn lemma_carve_complete(
    g: Maze,
    visited: Grid<bool>,
    stack: Seq<(usize, usize)>,
    w: usize,
    h: usize,
    rows: usize,
    cols: usize,
)
    requires
        1 <= w <= 1000,
        1 <= h <= 1000,
        rows == 2 * h + 1,
        cols == 2 * w + 1,
        visited.wf() && visited.rows == h && visited.cols == w,
        g.wf() && g.rows == rows && g.cols == cols,
        visited.at(0, 0),
        stack.len() == 0,
        forall|v: (usize, usize)|
            v.0 < w && v.1 < h && #[trigger] visited.at(v.1 as int, v.0 as int) ==> room_connected(
                g,
                w as int,
                h as int,
                (0, 0),
                (v.0 as int, v.1 as int),
            ),
        forall|v: (usize, usize)|
            v.0 < w && v.1 < h && #[trigger] visited.at(v.1 as int, v.0 as int)
                && !stack.contains(v) ==> room_expanded(
                visited,
                w as int,
                h as int,
                (v.0 as int, v.1 as int),
            ),
    ensures
        forall|v: (int, int)|
            room_in_range(w as int, h as int, v) ==> room_connected(
                g,
                w as int,
                h as int,
                (0, 0),
                v,
            ),
        count_true(visited.cells@) == h * w,
{
    let gw = w as int;
    let gh = h as int;
    assert forall|v2: (int, int)|
        room_in_range(gw, gh, v2) && #[trigger] visited.at(v2.1, v2.0) implies room_expanded(
        visited,
        gw,
        gh,
        v2,
    ) by {
        let vu = ((v2.0) as usize, (v2.1) as usize);
        assert(visited.at(vu.1 as int, vu.0 as int));
        assert(!stack.contains(vu));
        assert(room_expanded(visited, gw, gh, (vu.0 as int, vu.1 as int)));
    }
    assert forall|v: (int, int)| room_in_range(gw, gh, v) implies room_connected(
        g,
        gw,
        gh,
        (0, 0),
        v,
    ) by {
        lemma_all_rooms_visited(visited, gw, gh, v.0, v.1);
        let vu = ((v.0) as usize, (v.1) as usize);
        assert(visited.at(vu.1 as int, vu.0 as int));
    }
    assert forall|y2: int, x2: int| 0 <= y2 < h && 0 <= x2 < w implies visited.at(y2, x2) by {
        assert(room_in_range(gw, gh, (x2, y2)));
        lemma_all_rooms_visited(visited, gw, gh, x2, y2);
    }
    lemma_count_grid_all_true(visited);
}

/// The wall-count frame carries finiteness of the opened-wall set.
#[verifier::rlimit(100)]
#[verifier::spinoff_prover]
proof fn lemma_walls_ok_finite(g: Maze, visited: Grid<bool>, rows: int, cols: int)
    requires
        walls_ok(g, visited, rows, cols),
    ensures
        open_walls(g).finite(),
{
    reveal(walls_ok);
}

/// The spawn and goal stamps overwrite room cells only, so room
/// connectivity carries over to the stamped grid.
#[verifier::rlimit(100)]
#[verifier::spinoff_prover]
proof fn lemma_stamps_preserve_connectivity(
    g_pre: Maze,
    g: Maze,
    w: usize,
    h: usize,
    rows: usize,
    cols: usize,
)
    requires
        1 <= w <= 1000,
        1 <= h <= 1000,
        rows == 2 * h + 1,
        cols == 2 * w + 1,
        g_pre.wf() && g_pre.rows == rows && g_pre.cols == cols,
        g.wf() && g.rows == rows && g.cols == cols,
        forall|y: int, x: int|
            0 <= y < rows && 0 <= x < cols && !(y == 1 && x == 1) && !(y == rows - 2 && x == cols
                - 2) ==> #[trigger] g.at(y, x) == g_pre.at(y, x),
        forall|v: (int, int)|
            room_in_range(w as int, h as int, v) ==> room_connected(
                g_pre,
                w as int,
                h as int,
                (0, 0),
                v,
            ),
    ensures
        forall|v: (int, int)|
            room_in_range(w as int, h as int, v) ==> room_connected(
                g,
                w as int,
                h as int,
                (0, 0),
                v,
            ),
{
    let gw = w as int;
    let gh = h as int;
    assert forall|y: int, x: int|
        0 <= y < g_pre.rows && 0 <= x < g_pre.cols && (y % 2) + (x % 2) == 1 && #[trigger] g_pre.at(
            y,
            x,
        ) == ' ' implies g.at(y, x) == ' ' by {
        assert(!(y == 1 && x == 1) && !(y == rows - 2 && x == cols - 2));
        assert(g.at(y, x) == g_pre.at(y, x));
    }
    assert forall|v: (int, int)| room_in_range(gw, gh, v) implies room_connected(
        g,
        gw,
        gh,
        (0, 0),
        v,
    ) by {
        lemma_room_conn_monotone(g_pre, g, gw, gh, (0, 0), v);
    }
}


/// Every pair of rooms is mutually connected once every room is
/// connected to the origin room: reverse one path and concatenate.
#[verifier::rlimit(100)]
#[verifier::spinoff_prover]
pub proof fn lemma_rooms_pairwise_connected(
    g: Maze,
    w: int,
    h: int,
    a: (int, int),
    b: (int, int),
)
    requires
        forall|v: (int, int)|
            #[trigger] room_in_range(w, h, v) ==> room_connected(g, w, h, (0, 0), v),
        room_in_range(w, h, a),
        room_in_range(w, h, b),
    ensures
        room_connected(g, w, h, a, b),
{
    assert(room_connected(g, w, h, (0, 0), a));
    assert(room_connected(g, w, h, (0, 0), b));
    lemma_room_conn_sym(g, w, h, (0, 0), a);
    lemma_room_conn_trans(g, w, h, a, (0, 0), b);
}

/// A room path yields a walkable cell path: each room step expands to
/// the opened wall cell followed by the next room cell.
#[verifier::rlimit(100)]
#[verifier::spinoff_prover]
proof fn lemma_room_path_to_cell_path(
    g: Maze,
    w: int,
    h: int,
    s: Seq<(int, int)>,
    a: (int, int),
    b: (int, int),
)
    requires
        g.rows == 2 * h + 1,
        g.cols == 2 * w + 1,
        1 <= w,
        1 <= h,
        forall|y: int, x: int|
            0 <= y < g.rows && 0 <= x < g.cols && y % 2 == 1 && x % 2 == 1 ==> crate::maze::is_walkable(
                #[trigger] g.at(y, x),
            ),
        is_room_path(g, w, h, s, a, b),
    ensures
        crate::path::reachable(
            g,
            ((2 * a.0 + 1) as usize, (2 * a.1 + 1) as usize),
            ((2 * b.0 + 1) as usize, (2 * b.1 + 1) as usize),
        ),
    decreases s.len(),
{
    let au = ((2 * a.0 + 1) as usize, (2 * a.1 + 1) as usize);
    let bu = ((2 * b.0 + 1) as usize, (2 * b.1 + 1) as usize);
    if s.len() == 1 {
        let t = seq![au];
        assert(crate::path::is_path(g, t, au, bu));
    } else {
        let prev = s[s.len() - 2];
        let s0 = s.drop_last();
        assert(is_room_path(g, w, h, s0, a, prev)) by {
            assert forall|i: int| 0 <= i < s0.len() implies room_in_range(
                w,
                h,
                #[trigger] s0[i],
            ) by {
                assert(s0[i] == s[i]);
            }
            assert forall|i: int| 1 <= i < s0.len() implies rooms_linked(
                g,
                s0[i - 1],
                #[trigger] s0[i],
            ) by {
                assert(s0[i] == s[i] && s0[i - 1] == s[i - 1]);
            }
        }
        lemma_room_path_to_cell_path(g, w, h, s0, a, prev);
        let pu = ((2 * prev.0 + 1) as usize, (2 * prev.1 + 1) as usize);
        let t0 = choose|t: Seq<(usize, usize)>| crate::path::is_path(g, t, au, pu);
        assert(rooms_linked(g, prev, b));
        let wu = ((prev.0 + b.0 + 1) as usize, (prev.1 + b.1 + 1) as usize);
        let t = t0.push(wu).push(bu);
        assert(crate::path::is_path(g, t, au, bu)) by {
            assert(t[0] == t0[0]);
            assert(t[t.len() - 1] == bu);
            assert(g.at(wu.1 as int, wu.0 as int) == ' ');
            assert(crate::maze::is_walkable(g.at(bu.1 as int, bu.0 as int)));
            assert(crate::path::adjacent(pu, wu) && crate::path::adjacent(wu, bu));
            assert forall|i: int| 0 <= i < t.len() implies crate::path::in_bounds(
                g,
                #[trigger] t[i],
            ) by {
                if i < t0.len() {
                    assert(t[i] == t0[i]);
                }
            }
            assert forall|i: int| 1 <= i < t.len() implies crate::path::adjacent(
                t[i - 1],
                #[trigger] t[i],
            ) by {
                if i < t0.len() {
                    assert(t[i] == t0[i] && t[i - 1] == t0[i - 1]);
                } else if i == t0.len() {
                    assert(t[i] == wu && t[i - 1] == t0[i - 1] && t0[t0.len() - 1] == pu);
                } else {
                    assert(t[i] == bu && t[i - 1] == wu);
                }
            }
            assert forall|i: int| 1 <= i < t.len() implies crate::maze::is_walkable(
                crate::path::cell_at(g, #[trigger] t[i]),
            ) by {
                if i < t0.len() {
                    assert(t[i] == t0[i]);
                } else if i == t0.len() {
                    assert(t[i] == wu);
                } else {
                    assert(t[i] == bu);
                }
            }
        }
    }
}

/// The perfect-maze guarantee at cell level: in a carved grid whose
/// room cells are walkable, any two connected rooms are joined by a
/// walkable cell path, so the pathfinder is never without a route
/// between room cells.
#[verifier::rlimit(100)]
#[verifier::spinoff_prover]
pub proof fn lemma_room_conn_implies_reachable(
    g: Maze,
    w: int,
    h: int,
    a: (int, int),
    b: (int, int),
)
    requires
        g.rows == 2 * h + 1,
        g.cols == 2 * w + 1,
        1 <= w,
        1 <= h,
        forall|y: int, x: int|
            0 <= y < g.rows && 0 <= x < g.cols && y % 2 == 1 && x % 2 == 1 ==> crate::maze::is_walkable(
                #[trigger] g.at(y, x),
            ),
        room_connected(g, w, h, a, b),
        room_in_range(w, h, a),
        room_in_range(w, h, b),
    ensures
        crate::path::reachable(
            g,
            ((2 * a.0 + 1) as usize, (2 * a.1 + 1) as usize),
            ((2 * b.0 + 1) as usize, (2 * b.1 + 1) as usize),
        ),
{
    let s = choose|s: Seq<(int, int)>| is_room_path(g, w, h, s, a, b);
    lemma_room_path_to_cell_path(g, w, h, s, a, b);
}


/// One carve step: the wall between the current room and a freshly
/// visited neighbor is opened; every visited room stays connected to
/// the origin room, and rooms off the stack stay fully expanded.
#[verifier::rlimit(100)]
#[verifier::spinoff_prover]
proof fn lemma_carve_step(
    g0: Maze,
    g: Maze,
    vis0: Grid<bool>,
    visited: Grid<bool>,
    stack0: Seq<(usize, usize)>,
    stack_new: Seq<(usize, usize)>,
    cur: (usize, usize),
    next: (usize, usize),
    wall_y: usize,
    wall_x: usize,
    w: usize,
    h: usize,
    rows: usize,
    cols: usize,
)
    requires
        1 <= w <= 1000,
        1 <= h <= 1000,
        rows == 2 * h + 1,
        cols == 2 * w + 1,
        vis0.wf() && vis0.rows == h && vis0.cols == w,
        visited.wf() && visited.rows == h && visited.cols == w,
        g0.wf() && g0.rows == rows && g0.cols == cols,
        g.wf() && g.rows == rows && g.cols == cols,
        forall|v: (usize, usize)|
            v.0 < w && v.1 < h && #[trigger] vis0.at(v.1 as int, v.0 as int) ==> room_connected(
                g0,
                w as int,
                h as int,
                (0, 0),
                (v.0 as int, v.1 as int),
            ),
        forall|v: (usize, usize)|
            v.0 < w && v.1 < h && #[trigger] vis0.at(v.1 as int, v.0 as int)
                && !stack0.contains(v) ==> room_expanded(
                vis0,
                w as int,
                h as int,
                (v.0 as int, v.1 as int),
            ),
        cur.0 < w && cur.1 < h,
        next.0 < w && next.1 < h,
        vis0.at(cur.1 as int, cur.0 as int),
        !vis0.at(next.1 as int, next.0 as int),
        adjacent(cur, next),
        wall_y == cur.1 + next.1 + 1,
        wall_x == cur.0 + next.0 + 1,
        g.at(wall_y as int, wall_x as int) == ' ',
        forall|y: int, x: int|
            0 <= y < rows && 0 <= x < cols && !(y == wall_y && x == wall_x) ==> #[trigger] g.at(
                y,
                x,
            ) == g0.at(y, x),
        visited.at(next.1 as int, next.0 as int),
        forall|y: int, x: int|
            0 <= y < h && 0 <= x < w && !(y == next.1 && x == next.0) ==> #[trigger] visited.at(
                y,
                x,
            ) == vis0.at(y, x),
        stack0.len() >= 1,
        stack0[stack0.len() - 1] == cur,
        stack_new == stack0.drop_last().push(cur).push(next),
    ensures
        forall|v: (usize, usize)|
            v.0 < w && v.1 < h && #[trigger] visited.at(v.1 as int, v.0 as int) ==> room_connected(
                g,
                w as int,
                h as int,
                (0, 0),
                (v.0 as int, v.1 as int),
            ),
        forall|v: (usize, usize)|
            v.0 < w && v.1 < h && #[trigger] visited.at(v.1 as int, v.0 as int)
                && !stack_new.contains(v) ==> room_expanded(
                visited,
                w as int,
                h as int,
                (v.0 as int, v.1 as int),
            ),
{
    let gw = w as int;
    let gh = h as int;
    let cur_i = (cur.0 as int, cur.1 as int);
    let next_i = (next.0 as int, next.1 as int);
    assert forall|y: int, x: int|
        0 <= y < g0.rows && 0 <= x < g0.cols && (y % 2) + (x % 2) == 1 && #[trigger] g0.at(y, x)
            == ' ' implies g.at(y, x) == ' ' by {
        if !(y == wall_y && x == wall_x) {
            assert(g.at(y, x) == g0.at(y, x));
        }
    }
    assert(rooms_linked(g, cur_i, next_i));
    assert forall|v: (usize, usize)|
        v.0 < w && v.1 < h && #[trigger] visited.at(v.1 as int, v.0 as int) implies room_connected(
        g,
        gw,
        gh,
        (0, 0),
        (v.0 as int, v.1 as int),
    ) by {
        if v.0 == next.0 && v.1 == next.1 {
            assert(vis0.at(cur.1 as int, cur.0 as int));
            assert(room_connected(g0, gw, gh, (0, 0), cur_i));
            lemma_room_conn_monotone(g0, g, gw, gh, (0, 0), cur_i);
            lemma_room_conn_extend(g, gw, gh, (0, 0), cur_i, next_i);
        } else {
            assert(vis0.at(v.1 as int, v.0 as int));
            assert(room_connected(g0, gw, gh, (0, 0), (v.0 as int, v.1 as int)));
            lemma_room_conn_monotone(g0, g, gw, gh, (0, 0), (v.0 as int, v.1 as int));
        }
    }
    assert forall|v: (usize, usize)|
        v.0 < w && v.1 < h && #[trigger] visited.at(v.1 as int, v.0 as int)
            && !stack_new.contains(v) implies room_expanded(
        visited,
        gw,
        gh,
        (v.0 as int, v.1 as int),
    ) by {
        assert(stack_new[stack_new.len() - 1] == next);
        assert(stack_new[stack_new.len() - 2] == cur);
        assert(!(v.0 == next.0 && v.1 == next.1));
        assert(!(v.0 == cur.0 && v.1 == cur.1));
        assert(vis0.at(v.1 as int, v.0 as int));
        if stack0.contains(v) {
            let i = choose|i: int| 0 <= i < stack0.len() && stack0[i] == v;
            if i == stack0.len() - 1 {
                assert(v == cur);
            } else {
                assert(stack_new[i] == v);
            }
            assert(false);
        }
        assert(room_expanded(vis0, gw, gh, (v.0 as int, v.1 as int)));
        lemma_room_expanded_monotone(vis0, visited, gw, gh, (v.0 as int, v.1 as int));
    }
}


/// The set of opened interior wall segments of a grid, as (row, col)
/// pairs.
#[verifier::opaque]
pub open spec fn open_walls(g: Maze) -> Set<(int, int)> {
    Set::new(
        |p: (int, int)|
            interior_wall_slot(p.0, p.1, g.rows as int, g.cols as int) && g.at(p.0, p.1) == ' ',
    )
}

/// The two rooms a wall segment separates, (col, row) each.
pub open spec fn slot_rooms(y: int, x: int) -> ((int, int), (int, int)) {
    if y % 2 == 1 {
        (((x - 2) / 2, (y - 1) / 2), (x / 2, (y - 1) / 2))
    } else {
        (((x - 1) / 2, (y - 2) / 2), ((x - 1) / 2, y / 2))
    }
}

/// The wall-count frame: the opened-wall set is finite, and both rooms
/// beside every opened wall have been visited.
#[verifier::opaque]
pub open spec fn walls_ok(g: Maze, visited: Grid<bool>, rows: int, cols: int) -> bool {
    &&& open_walls(g).finite()
    &&& forall|y: int, x: int|
        interior_wall_slot(y, x, rows, cols) && #[trigger] g.at(y, x) == ' ' ==> ({
            let rr = slot_rooms(y, x);
            &&& visited.at(rr.0.1, rr.0.0)
            &&& visited.at(rr.1.1, rr.1.0)
        })
}

/// An untouched template grid has no opened walls.
#[verifier::rlimit(100)]
#[verifier::spinoff_prover]
proof fn lemma_count_init(g: Maze, visited: Grid<bool>, rows: int, cols: int)
    requires
        g.rows == rows,
        g.cols == cols,
        forall|y: int, x: int| 0 <= y < rows && 0 <= x < cols ==> #[trigger] g.at(y, x)
            == base_char(y, x),
    ensures
        walls_ok(g, visited, rows, cols),
        open_walls(g).len() == 0,
{
    reveal(open_walls);
    reveal(walls_ok);
    broadcast use vstd::set::group_set_axioms;
    broadcast use vstd::set::axiom_set_empty_len;

    assert(open_walls(g) =~= Set::<(int, int)>::empty()) by {
        assert forall|p: (int, int)| !(#[trigger] open_walls(g).contains(p)) by {
            if interior_wall_slot(p.0, p.1, rows, cols) {
                assert(g.at(p.0, p.1) == base_char(p.0, p.1));
            }
        }
    }
}

/// Opening the wall between the current room and a freshly visited
/// neighbor grows the opened-wall set by exactly that wall.
#[verifier::rlimit(100)]
#[verifier::spinoff_prover]
proof fn lemma_count_step(
    g0: Maze,
    g: Maze,
    vis0: Grid<bool>,
    visited: Grid<bool>,
    cur: (usize, usize),
    next: (usize, usize),
    wall_y: usize,
    wall_x: usize,
    w: usize,
    h: usize,
    rows: usize,
    cols: usize,
)
    requires
        1 <= w <= 1000,
        1 <= h <= 1000,
        rows == 2 * h + 1,
        cols == 2 * w + 1,
        g0.rows == rows && g0.cols == cols,
        g.rows == rows && g.cols == cols,
        vis0.rows == h && vis0.cols == w,
        visited.rows == h && visited.cols == w,
        walls_ok(g0, vis0, rows as int, cols as int),
        cur.0 < w && cur.1 < h,
        next.0 < w && next.1 < h,
        !vis0.at(next.1 as int, next.0 as int),
        adjacent(cur, next),
        wall_y == cur.1 + next.1 + 1,
        wall_x == cur.0 + next.0 + 1,
        interior_wall_slot(wall_y as int, wall_x as int, rows as int, cols as int),
        g.at(wall_y as int, wall_x as int) == ' ',
        forall|y: int, x: int|
            0 <= y < rows && 0 <= x < cols && !(y == wall_y && x == wall_x) ==> #[trigger] g.at(
                y,
                x,
            ) == g0.at(y, x),
        visited.at(cur.1 as int, cur.0 as int),
        visited.at(next.1 as int, next.0 as int),
        forall|y: int, x: int|
            0 <= y < h && 0 <= x < w && !(y == next.1 && x == next.0) ==> #[trigger] visited.at(
                y,
                x,
            ) == vis0.at(y, x),
    ensures
        walls_ok(g, visited, rows as int, cols as int),
        open_walls(g).len() == open_walls(g0).len() + 1,
{
    reveal(open_walls);
    reveal(walls_ok);
    broadcast use vstd::set::group_set_axioms;

    let cur_i = (cur.0 as int, cur.1 as int);
    let next_i = (next.0 as int, next.1 as int);
    let wp = (wall_y as int, wall_x as int);
    assert(slot_rooms(wp.0, wp.1) == (cur_i, next_i) || slot_rooms(wp.0, wp.1) == (
    next_i,
    cur_i,
    )) by {
        if cur.0 == next.0 {
            assert(wp.0 % 2 == 0 && wp.1 % 2 == 1);
        } else {
            assert(wp.0 % 2 == 1 && wp.1 % 2 == 0);
        }
    }
    assert(!open_walls(g0).contains(wp)) by {
        if open_walls(g0).contains(wp) {
            assert(g0.at(wp.0, wp.1) == ' ');
            assert(vis0.at(next_i.1, next_i.0));
        }
    }
    assert(open_walls(g) =~= open_walls(g0).insert(wp)) by {
        assert forall|p: (int, int)|
            open_walls(g).contains(p) <==> #[trigger] open_walls(g0).insert(wp).contains(p) by {
            if p != wp {
                if 0 <= p.0 < rows && 0 <= p.1 < cols {
                    assert(g.at(p.0, p.1) == g0.at(p.0, p.1));
                }
            }
        }
    }
    vstd::set::axiom_set_insert_len(open_walls(g0), wp);
    assert forall|y: int, x: int|
        interior_wall_slot(y, x, rows as int, cols as int) && #[trigger] g.at(y, x)
            == ' ' implies ({
        let rr = slot_rooms(y, x);
        &&& visited.at(rr.0.1, rr.0.0)
        &&& visited.at(rr.1.1, rr.1.0)
    }) by {
        if !(y == wall_y && x == wall_x) {
            assert(g.at(y, x) == g0.at(y, x));
            let rr = slot_rooms(y, x);
            assert(vis0.at(rr.0.1, rr.0.0) && vis0.at(rr.1.1, rr.1.0));
            assert(visited.at(rr.0.1, rr.0.0) == vis0.at(rr.0.1, rr.0.0) || (rr.0.1 == next.1
                && rr.0.0 == next.0));
            assert(visited.at(rr.1.1, rr.1.0) == vis0.at(rr.1.1, rr.1.0) || (rr.1.1 == next.1
                && rr.1.0 == next.0));
        }
    }
}

/// The spawn and goal stamps do not touch wall segments, so the
/// opened-wall set is unchanged by them.
#[verifier::rlimit(100)]
#[verifier::spinoff_prover]
proof fn lemma_count_finish(g_pre: Maze, g: Maze, rows: usize, cols: usize)
    requires
        3 <= rows,
        3 <= cols,
        rows % 2 == 1,
        cols % 2 == 1,
        g_pre.rows == rows && g_pre.cols == cols,
        g.rows == rows && g.cols == cols,
        forall|y: int, x: int|
            0 <= y < rows && 0 <= x < cols && !(y == 1 && x == 1) && !(y == rows - 2 && x == cols
                - 2) ==> #[trigger] g.at(y, x) == g_pre.at(y, x),
    ensures
        open_walls(g) == open_walls(g_pre),
{
    reveal(open_walls);
    broadcast use vstd::set::group_set_axioms;

    assert(open_walls(g) =~= open_walls(g_pre)) by {
        assert forall|p: (int, int)|
            open_walls(g).contains(p) <==> #[trigger] open_walls(g_pre).contains(p) by {
            if interior_wall_slot(p.0, p.1, rows as int, cols as int) {
                assert(!(p.0 == 1 && p.1 == 1) && !(p.0 == rows - 2 && p.1 == cols - 2));
                assert(g.at(p.0, p.1) == g_pre.at(p.0, p.1));
            }
        }
    }
}

} // verus!
