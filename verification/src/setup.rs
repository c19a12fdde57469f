use vstd::prelude::*;

verus! {

use crate::caster::FP;
use crate::enemy::Enemy;
use crate::fog::reveal_fog;
use crate::grid::Grid;
use crate::maze::{Maze, is_open, is_walkable};
use crate::path::{in_bounds, cell_at, mark_at};
use crate::player::Player;
use crate::world::World;

/// Field of view: sixty degrees, in microradians.
pub const FOV_URAD: i64 = 1_047_198;

/// The world-units-per-second speed of an enemy, fixed point.
pub const ENEMY_SPEED: i64 = 18_432;

/// The size in pixels of one maze cell on screen: the largest that
/// still fits the whole grid in the window, but never below 6.
pub fn compute_block_size(window_w: usize, window_h: usize, rows: usize, cols: usize) -> (bs: usize)
    requires
        1 <= rows,
        1 <= cols,
        window_w <= 100_000,
        window_h <= 100_000,
    ensures
        bs == vstd::math::max(
            6,
            vstd::math::min(window_w as int / cols as int, window_h as int / rows as int),
        ),
        6 <= bs <= 100_000,
{
    let bw: usize = window_w / cols;
    let bh: usize = window_h / rows;
    let m: usize = if bw < bh {
        bw
    } else {
        bh
    };
    proof {
        vstd::arithmetic::div_mod::lemma_div_nonincreasing(window_w as int, cols as int);
        vstd::arithmetic::div_mod::lemma_div_nonincreasing(window_h as int, rows as int);
        vstd::arithmetic::div_mod::lemma_div_pos_is_pos(window_w as int, cols as int);
        vstd::arithmetic::div_mod::lemma_div_pos_is_pos(window_h as int, rows as int);
    }
    if m < 6 {
        6
    } else {
        m
    }
}

/// The first spawn marker in row-major order, or the nominal room
/// (1, 1) when the grid has none.
fn find_spawn_marker(m: &Maze) -> (c: (usize, usize))
    requires
        m.wf(),
        3 <= m.rows <= 10000,
        3 <= m.cols <= 10000,
    ensures
        in_bounds(*m, c),
{
    let rows: usize = m.rows();
    let cols: usize = m.cols();
    let mut r: usize = 0;
    while r < rows
        invariant
            m.wf(),
            rows == m.rows,
            cols == m.cols,
            3 <= rows <= 10000,
            3 <= cols <= 10000,
            r <= rows,
        decreases rows - r,
    {
        let mut c: usize = 0;
        while c < cols
            invariant
                m.wf(),
                rows == m.rows,
                cols == m.cols,
                3 <= rows <= 10000,
                3 <= cols <= 10000,
                r < rows,
                c <= cols,
            decreases cols - c,
        {
            if m.read(r, c) == 'p' {
                return (c, r);
            }
            c = c + 1;
        }
        r = r + 1;
    }
    (1, 1)
}


/// The flood-fill frame: every mark lies on an open in-bounds cell, the
/// queue holds only marked in-bounds cells, and the mark count bounds
/// the queue length.
pub open spec fn flood_inv(m: Maze, marked: Grid<bool>, q: Seq<(usize, usize)>) -> bool {
    &&& marked.wf()
    &&& marked.rows == m.rows
    &&& marked.cols == m.cols
    &&& forall|c: (usize, usize)|
        in_bounds(m, c) && #[trigger] mark_at(marked, c) ==> is_open(cell_at(m, c))
    &&& forall|i: int|
        0 <= i < q.len() ==> in_bounds(m, #[trigger] q[i]) && mark_at(marked, q[i])
    &&& q.len() <= crate::grid::count_true(marked.cells@)
    &&& crate::grid::count_true(marked.cells@) <= m.rows * m.cols
}

/// Mark one open cell and enqueue it, keeping the flood-fill frame.
fn mark_open_cell(
    m: &Maze,
    marked: &mut Grid<bool>,
    queue: &mut Vec<(usize, usize)>,
    x: usize,
    y: usize,
)
    requires
        m.wf(),
        1 <= m.rows <= 10000,
        1 <= m.cols <= 10000,
        flood_inv(*m, *old(marked), old(queue)@),
        x < m.cols,
        y < m.rows,
        is_open(m.at(y as int, x as int)),
        !old(marked).at(y as int, x as int),
    ensures
        flood_inv(*m, *final(marked), final(queue)@),
        final(queue)@ == old(queue)@.push((x, y)),
        mark_at(*final(marked), (x, y)),
        forall|c: (usize, usize)|
            in_bounds(*m, c) && #[trigger] mark_at(*old(marked), c) ==> mark_at(*final(marked), c),
        forall|c: (usize, usize)|
            in_bounds(*m, c) && #[trigger] mark_at(*final(marked), c) ==> mark_at(*old(marked), c)
                || c == (x, y),
{
    proof {
        crate::grid::lemma_flat_index_bound(y as int, x as int, m.rows as int, m.cols as int);
        crate::grid::lemma_count_true_update(marked.cells@, y as int * m.cols + x);
        crate::grid::lemma_count_true_le_len(marked.cells@.update(y as int * m.cols + x, true));
    }
    marked.set(y, x, true);
    queue.push((x, y));
    proof {
        let mk = *marked;
        assert forall|c: (usize, usize)|
            in_bounds(*m, c) && #[trigger] mark_at(mk, c) implies is_open(cell_at(*m, c)) by {
            if !(c.1 == y && c.0 == x) {
                assert(mark_at(*old(marked), c));
            }
        }
        assert forall|i: int|
            0 <= i < queue@.len() implies in_bounds(*m, #[trigger] queue@[i]) && mark_at(
            mk,
            queue@[i],
        ) by {
            if i < queue@.len() - 1 {
                assert(queue@[i] == old(queue)@[i]);
                assert(mark_at(*old(marked), queue@[i]));
            }
        }
    }
}

/// Flood-fill marks from every open border cell inward, across open
/// cells only. Every mark lies on an open cell, every open border cell
/// is marked, and the marked set is closed under open adjacency.
fn flood_from_border(m: &Maze) -> (marked: Grid<bool>)
    requires
        m.wf(),
        1 <= m.rows <= 10000,
        1 <= m.cols <= 10000,
    ensures
        marked.wf(),
        marked.rows == m.rows,
        marked.cols == m.cols,
        forall|c: (usize, usize)|
            in_bounds(*m, c) && #[trigger] mark_at(marked, c) ==> is_open(cell_at(*m, c)),
        forall|c: (usize, usize)|
            in_bounds(*m, c) && (c.0 == 0 || c.1 == 0 || c.0 == m.cols - 1 || c.1 == m.rows - 1)
                && is_open(cell_at(*m, c)) ==> #[trigger] mark_at(marked, c),
{
    let rows: usize = m.rows();
    let cols: usize = m.cols();
    proof {
        crate::grid::lemma_flat_index_bound(0, 0, rows as int, cols as int);
        assert(rows * cols >= 1 * 1) by (nonlinear_arith)
            requires
                rows >= 1,
                cols >= 1,
        ;
        assert(rows * cols <= 10000 * 10000) by (nonlinear_arith)
            requires
                rows <= 10000,
                cols <= 10000,
        ;
    }
    let mut marked: Grid<bool> = Grid::new(rows, cols, false);
    let mut queue: Vec<(usize, usize)> = Vec::new();
    proof {
        crate::grid::lemma_count_all_false(marked.cells@);
    }
    // Seed with every open border cell.
    let mut r: usize = 0;
    while r < rows
        invariant
            m.wf(),
            rows == m.rows,
            cols == m.cols,
            1 <= rows <= 10000,
            1 <= cols <= 10000,
            rows * cols <= 10000 * 10000,
            r <= rows,
            flood_inv(*m, marked, queue@),
            forall|c: (usize, usize)|
                in_bounds(*m, c) && c.1 < r && (c.0 == 0 || c.1 == 0 || c.0 == m.cols - 1 || c.1
                    == m.rows - 1) && is_open(cell_at(*m, c)) ==> #[trigger] mark_at(marked, c),
        decreases rows - r,
    {
        let mut c: usize = 0;
        while c < cols
            invariant
                m.wf(),
                rows == m.rows,
                cols == m.cols,
                1 <= rows <= 10000,
                1 <= cols <= 10000,
                rows * cols <= 10000 * 10000,
                r < rows,
                c <= cols,
                flood_inv(*m, marked, queue@),
                forall|cc: (usize, usize)|
                    in_bounds(*m, cc) && cc.1 < r && (cc.0 == 0 || cc.1 == 0 || cc.0 == m.cols - 1
                        || cc.1 == m.rows - 1) && is_open(cell_at(*m, cc)) ==> #[trigger] mark_at(
                        marked,
                        cc,
                    ),
                forall|cc: (usize, usize)|
                    in_bounds(*m, cc) && cc.1 == r && cc.0 < c && (cc.0 == 0 || cc.1 == 0 || cc.0
                        == m.cols - 1 || cc.1 == m.rows - 1) && is_open(cell_at(*m, cc))
                        ==> #[trigger] mark_at(marked, cc),
            decreases cols - c,
        {
            let ghost mk0 = marked;
            if r == 0 || r == rows - 1 || c == 0 || c == cols - 1 {
                if m.read(r, c) == ' ' && !marked.read(r, c) {
                    mark_open_cell(m, &mut marked, &mut queue, c, r);
                }
            }
            proof {
                assert forall|cc: (usize, usize)|
                    in_bounds(*m, cc) && (cc.1 < r || (cc.1 == r && cc.0 < c + 1)) && (cc.0 == 0
                        || cc.1 == 0 || cc.0 == m.cols - 1 || cc.1 == m.rows - 1) && is_open(
                    cell_at(*m, cc),
                ) implies #[trigger] mark_at(marked, cc) by {
                    if cc.1 == r && cc.0 == c {
                        assert(mark_at(marked, (c, r)) || mark_at(mk0, (c, r)));
                    } else {
                        assert(mark_at(mk0, cc));
                    }
                }
            }
            c = c + 1;
        }
        r = r + 1;
    }
    // Expand across open cells.
    let mut head: usize = 0;
    while head < queue.len()
        invariant
            m.wf(),
            rows == m.rows,
            cols == m.cols,
            1 <= rows <= 10000,
            1 <= cols <= 10000,
            rows * cols <= 10000 * 10000,
            head <= queue@.len(),
            flood_inv(*m, marked, queue@),
            forall|c: (usize, usize)|
                in_bounds(*m, c) && (c.0 == 0 || c.1 == 0 || c.0 == m.cols - 1 || c.1 == m.rows
                    - 1) && is_open(cell_at(*m, c)) ==> #[trigger] mark_at(marked, c),
        decreases rows * cols - head,
    {
        let cur: (usize, usize) = queue[head];
        let mut j: usize = 0;
        while j < 4
            invariant
                m.wf(),
                rows == m.rows,
                cols == m.cols,
                1 <= rows <= 10000,
                1 <= cols <= 10000,
                rows * cols <= 10000 * 10000,
                j <= 4,
                in_bounds(*m, cur),
                head < queue@.len(),
                flood_inv(*m, marked, queue@),
                forall|c: (usize, usize)|
                    in_bounds(*m, c) && (c.0 == 0 || c.1 == 0 || c.0 == m.cols - 1 || c.1 == m.rows
                        - 1) && is_open(cell_at(*m, c)) ==> #[trigger] mark_at(marked, c),
            decreases 4 - j,
        {
            let cx: i64 = cur.0 as i64;
            let cy: i64 = cur.1 as i64;
            let nxi: i64 = if j == 0 {
                cx + 1
            } else if j == 1 {
                cx - 1
            } else {
                cx
            };
            let nyi: i64 = if j == 2 {
                cy + 1
            } else if j == 3 {
                cy - 1
            } else {
                cy
            };
            if 0 <= nxi && nxi < cols as i64 && 0 <= nyi && nyi < rows as i64 {
                let nx: usize = nxi as usize;
                let ny: usize = nyi as usize;
                let ghost mk0 = marked;
                if m.read(ny, nx) == ' ' && !marked.read(ny, nx) {
                    mark_open_cell(m, &mut marked, &mut queue, nx, ny);
                    proof {
                        assert forall|c: (usize, usize)|
                            in_bounds(*m, c) && (c.0 == 0 || c.1 == 0 || c.0 == m.cols - 1 || c.1
                                == m.rows - 1) && is_open(cell_at(*m, c)) implies #[trigger] mark_at(
                            marked,
                            c,
                        ) by {
                            assert(mark_at(mk0, c));
                        }
                    }
                }
            }
            j = j + 1;
        }
        head = head + 1;
    }
    marked
}

/// Manhattan distance between two cells.
pub open spec fn manhattan(a: (usize, usize), b: (usize, usize)) -> int {
    (if a.0 >= b.0 {
        a.0 - b.0
    } else {
        b.0 - a.0
    }) + (if a.1 >= b.1 {
        a.1 - b.1
    } else {
        b.1 - a.1
    })
}

/// The first marked cell, scanning row-major, whose Manhattan distance
/// to `from` is minimal: the relocation target for an unreachable
/// spawn.
fn nearest_marked(marked: &Grid<bool>, from: (usize, usize)) -> (r: Option<(usize, usize)>)
    requires
        marked.wf(),
        1 <= marked.rows <= 10000,
        1 <= marked.cols <= 10000,
        from.0 < marked.cols,
        from.1 < marked.rows,
    ensures
        r is Some ==> {
            &&& mark_at(*marked, r->Some_0)
            &&& r->Some_0.0 < marked.cols && r->Some_0.1 < marked.rows
            &&& forall|c: (usize, usize)|
                c.0 < marked.cols && c.1 < marked.rows && #[trigger] mark_at(*marked, c)
                    ==> manhattan(c, from) >= manhattan(r->Some_0, from)
        },
        r is None ==> forall|c: (usize, usize)|
            c.0 < marked.cols && c.1 < marked.rows ==> !(#[trigger] mark_at(*marked, c)),
{
    let rows: usize = marked.rows();
    let cols: usize = marked.cols();
    let mut best: Option<(usize, usize)> = None;
    let mut best_d: i64 = 0;
    let mut r: usize = 0;
    while r < rows
        invariant
            marked.wf(),
            rows == marked.rows,
            cols == marked.cols,
            1 <= rows <= 10000,
            1 <= cols <= 10000,
            from.0 < cols,
            from.1 < rows,
            r <= rows,
            best is Some ==> {
                &&& mark_at(*marked, best->Some_0)
                &&& best->Some_0.0 < cols && best->Some_0.1 < rows
                &&& best_d == manhattan(best->Some_0, from)
                &&& forall|c: (usize, usize)|
                    c.0 < cols && c.1 < r && #[trigger] mark_at(*marked, c) ==> manhattan(c, from)
                        >= best_d
            },
            best is None ==> forall|c: (usize, usize)|
                c.0 < cols && c.1 < r ==> !(#[trigger] mark_at(*marked, c)),
        decreases rows - r,
    {
        let mut c: usize = 0;
        while c < cols
            invariant
                marked.wf(),
                rows == marked.rows,
                cols == marked.cols,
                1 <= rows <= 10000,
                1 <= cols <= 10000,
                from.0 < cols,
                from.1 < rows,
                r < rows,
                c <= cols,
                best is Some ==> {
                    &&& mark_at(*marked, best->Some_0)
                    &&& best->Some_0.0 < cols && best->Some_0.1 < rows
                    &&& best_d == manhattan(best->Some_0, from)
                    &&& forall|cc: (usize, usize)|
                        cc.0 < cols && (cc.1 < r || (cc.1 == r && cc.0 < c)) && #[trigger] mark_at(
                            *marked,
                            cc,
                        ) ==> manhattan(cc, from) >= best_d
                },
                best is None ==> forall|cc: (usize, usize)|
                    cc.0 < cols && (cc.1 < r || (cc.1 == r && cc.0 < c)) ==> !(#[trigger] mark_at(
                        *marked,
                        cc,
                    )),
            decreases cols - c,
        {
            if marked.read(r, c) {
                let dx: i64 = if c as i64 >= from.0 as i64 {
                    c as i64 - from.0 as i64
                } else {
                    from.0 as i64 - c as i64
                };
                let dy: i64 = if r as i64 >= from.1 as i64 {
                    r as i64 - from.1 as i64
                } else {
                    from.1 as i64 - r as i64
                };
                let d: i64 = dx + dy;
                match best {
                    Option::None => {
                        best = Some((c, r));
                        best_d = d;
                    },
                    Option::Some(_) => {
                        if d < best_d {
                            best = Some((c, r));
                            best_d = d;
                        }
                    },
                }
            }
            c = c + 1;
        }
        r = r + 1;
    }
    best
}


/// Does any pickup in the list already occupy this cell?
fn contains_cell(v: &Vec<crate::world::Pickup>, c: (usize, usize)) -> (b: bool)
    ensures
        b == (exists|i: int| 0 <= i < v@.len() && (#[trigger] v@[i]).cell == c),
{
    let mut i: usize = 0;
    while i < v.len()
        invariant
            i <= v@.len(),
            forall|j: int| 0 <= j < i ==> (#[trigger] v@[j]).cell != c,
        decreases v@.len() - i,
    {
        if v[i].cell.0 == c.0 && v[i].cell.1 == c.1 {
            proof {
                assert(v@[i as int].cell == c);
            }
            return true;
        }
        i = i + 1;
    }
    false
}

/// The center of a cell maps back to that cell.
proof fn lemma_center_roundtrip(c: int, bs: int)
    requires
        0 <= c,
        1 <= bs <= 10000,
        c <= 10000,
    ensures
        (c * bs * 1024 + bs * 1024 / 2) / 1024 / bs == c,
{
    assert(bs * 1024 / 2 == bs * 512) by (nonlinear_arith)
        requires
            1 <= bs,
    ;
    assert((c * bs * 1024 + bs * 512) / 1024 == c * bs + bs * 512 / 1024) by (nonlinear_arith)
        requires
            0 <= c,
            1 <= bs <= 10000,
            c <= 10000,
    ;
    assert(bs * 512 / 1024 == bs / 2) by (nonlinear_arith)
        requires
            1 <= bs <= 10000,
    ;
    assert((c * bs + bs / 2) / bs == c) by (nonlinear_arith)
        requires
            0 <= c,
            1 <= bs,
            0 <= bs / 2 < bs,
            bs / 2 == vstd::math::min(bs / 2, bs - 1),
    ;
}

/// Build a fresh playing world around a generated (or loaded) maze:
/// flood-fill reachability from the open border cells, relocate the
/// spawn to the nearest reachable open cell when the nominal one is
/// cut off, stamp the goal into the far interior corner and ring it
/// with locked doors, spawn the two enemies in far corners, scatter the
/// pickups (best-effort random placement with deterministic fallback),
/// and reveal the fog around the player's starting position.
#[verifier::rlimit(100)]
pub fn setup_world(maze_in: Maze, block_size: usize) -> (w: World)
    requires
        maze_in.wf(),
        3 <= maze_in.rows <= 10000,
        3 <= maze_in.cols <= 10000,
        1 <= block_size <= 10000,
        maze_in.rows * block_size <= 1_000_000,
        maze_in.cols * block_size <= 1_000_000,
    ensures
        w.wf(),
        w.block_size == block_size,
        w.maze.rows == maze_in.rows,
        w.maze.cols == maze_in.cols,
        !w.goal_unlocked,
        w.player.health == 100 && !w.player.has_key && w.player.fov == FOV_URAD,
        w.maze.at(w.maze.rows - 2, w.maze.cols - 2) == 'g',
        w.enemies@.len() == 2,
        w.keys@.len() == 1,
        w.bins@.len() == 1,
        w.medkits@.len() <= 6,
        is_walkable(cell_at(w.maze, w.player_cell())) || cell_at(w.maze, w.player_cell()) == 'D',
        forall|y: int, x: int|
            0 <= y < w.maze.rows && 0 <= x < w.maze.cols ==> w.fog.at(y, x) == crate::fog::in_disk(
                y,
                x,
                w.player_cell().1 as int,
                w.player_cell().0 as int,
                2,
            ),
{
    let rows: usize = maze_in.rows();
    let cols: usize = maze_in.cols();
    let mut mz: Maze = maze_in;
    let orig: (usize, usize) = find_spawn_marker(&mz);
    let marked: Grid<bool> = flood_from_border(&mz);
    let spawn: (usize, usize) = if marked.read(orig.1, orig.0) {
        orig
    } else {
        match nearest_marked(&marked, orig) {
            Option::Some(c) => c,
            Option::None => orig,
        }
    };
    mz.set(spawn.1, spawn.0, ' ');
    // Clear any stale goal markers, then stamp the goal and its doors.
    let mut r: usize = 0;
    while r < rows
        invariant
            rows == mz.rows,
            cols == mz.cols,
            3 <= rows <= 10000,
            3 <= cols <= 10000,
            mz.wf(),
            r <= rows,
            spawn.0 < cols,
            spawn.1 < rows,
            mz.at(spawn.1 as int, spawn.0 as int) == ' ' || mz.at(spawn.1 as int, spawn.0 as int)
                == 'g' || mz.at(spawn.1 as int, spawn.0 as int) == 'D',
        decreases rows - r,
    {
        let mut c: usize = 0;
        while c < cols
            invariant
                rows == mz.rows,
                cols == mz.cols,
                3 <= rows <= 10000,
                3 <= cols <= 10000,
                mz.wf(),
                r < rows,
                c <= cols,
                spawn.0 < cols,
                spawn.1 < rows,
                mz.at(spawn.1 as int, spawn.0 as int) == ' ' || mz.at(
                    spawn.1 as int,
                    spawn.0 as int,
                ) == 'g' || mz.at(spawn.1 as int, spawn.0 as int) == 'D',
            decreases cols - c,
        {
            if mz.read(r, c) == 'g' {
                mz.set(r, c, ' ');
            }
            c = c + 1;
        }
        r = r + 1;
    }
    let gx: usize = cols - 2;
    let gy: usize = rows - 2;
    mz.set(gy, gx, 'g');
    let mut j: usize = 0;
    while j < 4
        invariant
            rows == mz.rows,
            cols == mz.cols,
            3 <= rows <= 10000,
            3 <= cols <= 10000,
            mz.wf(),
            gx == cols - 2,
            gy == rows - 2,
            j <= 4,
            mz.at(gy as int, gx as int) == 'g',
            spawn.0 < cols,
            spawn.1 < rows,
            mz.at(spawn.1 as int, spawn.0 as int) == ' ' || mz.at(spawn.1 as int, spawn.0 as int)
                == 'g' || mz.at(spawn.1 as int, spawn.0 as int) == 'D',
        decreases 4 - j,
    {
        let ni: i64 = if j == 0 {
            gx as i64 + 1
        } else if j == 1 {
            gx as i64 - 1
        } else {
            gx as i64
        };
        let nj: i64 = if j == 2 {
            gy as i64 + 1
        } else if j == 3 {
            gy as i64 - 1
        } else {
            gy as i64
        };
        if 0 <= ni && ni < cols as i64 && 0 <= nj && nj < rows as i64 {
            if mz.read(nj as usize, ni as usize) != 'g' {
                mz.set(nj as usize, ni as usize, 'D');
            }
        }
        j = j + 1;
    }

    let bs: i64 = block_size as i64;
    proof {
        crate::enemy::lemma_center_in_world(spawn.0 as int, bs as int, cols as int);
        crate::enemy::lemma_center_in_world(spawn.1 as int, bs as int, rows as int);
    }
    let px: i64 = (spawn.0 as i64) * bs * FP + bs * FP / 2;
    let py: i64 = (spawn.1 as i64) * bs * FP + bs * FP / 2;
    proof {
        assert(0 <= spawn.0 as int * bs * 1024 <= 10000int * 10000 * 1024) by (nonlinear_arith)
            requires
                0 <= spawn.0 as int <= 10000,
                1 <= bs <= 10000,
        ;
        assert(0 <= spawn.1 as int * bs * 1024 <= 10000int * 10000 * 1024) by (nonlinear_arith)
            requires
                0 <= spawn.1 as int <= 10000,
                1 <= bs <= 10000,
        ;
        lemma_center_roundtrip(spawn.0 as int, bs as int);
        lemma_center_roundtrip(spawn.1 as int, bs as int);
        crate::world::lemma_cell_pos_bound(px as int, bs as int, cols as int);
        crate::world::lemma_cell_pos_bound(py as int, bs as int, rows as int);
    }
    let player: Player = Player::new(px, py, 0, FOV_URAD);

    // Enemy spawns: the far open corners, scanned as the original does.
    let mut spawn1: (usize, usize) = (cols - 3, 1);
    let mut found1: bool = false;
    let mut r1: usize = 1;
    while r1 < rows - 1
        invariant
            rows == mz.rows,
            cols == mz.cols,
            3 <= rows <= 10000,
            3 <= cols <= 10000,
            mz.wf(),
            spawn1.0 < cols,
            spawn1.1 < rows,
            r1 >= 1,
        decreases rows - 1 - r1,
    {
        if !found1 {
            let mut c1: usize = cols - 2;
            while c1 >= 1
                invariant
                    rows == mz.rows,
                    cols == mz.cols,
                    3 <= rows <= 10000,
                    3 <= cols <= 10000,
                    mz.wf(),
                    spawn1.0 < cols,
                    spawn1.1 < rows,
                    1 <= r1 < rows - 1,
                    c1 <= cols - 2,
                decreases c1,
            {
                if !found1 && mz.read(r1, c1) == ' ' {
                    spawn1 = (c1, r1);
                    found1 = true;
                }
                c1 = c1 - 1;
            }
        }
        r1 = r1 + 1;
    }
    let mut spawn2: (usize, usize) = (1, rows - 3);
    let mut found2: bool = false;
    let mut r2: usize = rows - 2;
    while r2 >= 1
        invariant
            rows == mz.rows,
            cols == mz.cols,
            3 <= rows <= 10000,
            3 <= cols <= 10000,
            mz.wf(),
            spawn2.0 < cols,
            spawn2.1 < rows,
            r2 <= rows - 2,
        decreases r2,
    {
        if !found2 {
            let mut c2: usize = 1;
            while c2 < cols - 1
                invariant
                    rows == mz.rows,
                    cols == mz.cols,
                    3 <= rows <= 10000,
                    3 <= cols <= 10000,
                    mz.wf(),
                    spawn2.0 < cols,
                    spawn2.1 < rows,
                    1 <= r2 < rows - 1,
                    c2 >= 1,
                decreases cols - 1 - c2,
            {
                if !found2 && mz.read(r2, c2) == ' ' {
                    spawn2 = (c2, r2);
                    found2 = true;
                }
                c2 = c2 + 1;
            }
        }
        r2 = r2 - 1;
    }
    let mut enemies: Vec<Enemy> = Vec::new();
    proof {
        crate::enemy::lemma_center_in_world(spawn1.0 as int, bs as int, cols as int);
        crate::enemy::lemma_center_in_world(spawn1.1 as int, bs as int, rows as int);
        crate::enemy::lemma_center_in_world(spawn2.0 as int, bs as int, cols as int);
        crate::enemy::lemma_center_in_world(spawn2.1 as int, bs as int, rows as int);
    }
    enemies.push(Enemy::new(spawn1, block_size, 0, ENEMY_SPEED));
    enemies.push(Enemy::new(spawn2, block_size, 0, ENEMY_SPEED));

    // Best-effort random pickup placement with deterministic fallback.
    let mut medkits: Vec<crate::world::Pickup> = Vec::new();
    let mut placed: usize = 0;
    let mut tries: usize = 0;
    while placed < 6 && tries < 600
        invariant
            rows == mz.rows,
            cols == mz.cols,
            3 <= rows <= 10000,
            3 <= cols <= 10000,
            mz.wf(),
            medkits@.len() == placed,
            placed <= 6,
            forall|i: int|
                0 <= i < medkits@.len() ==> (#[trigger] medkits@[i]).cell.0 < cols
                    && medkits@[i].cell.1 < rows,
        decreases 600 - tries,
    {
        tries = tries + 1;
        let rr: usize = 1 + crate::generator::random_below(rows - 2);
        let cc: usize = 1 + crate::generator::random_below(cols - 2);
        if mz.read(rr, cc) == ' ' && !contains_cell(&medkits, (cc, rr)) {
            medkits.push(crate::world::Pickup { cell: (cc, rr), taken: false });
            placed = placed + 1;
        }
    }

    let mut keys: Vec<crate::world::Pickup> = Vec::new();
    let mut tries_k: usize = 0;
    while keys.len() == 0 && tries_k < 300
        invariant
            rows == mz.rows,
            cols == mz.cols,
            3 <= rows <= 10000,
            3 <= cols <= 10000,
            mz.wf(),
            keys@.len() <= 1,
            forall|i: int|
                0 <= i < keys@.len() ==> (#[trigger] keys@[i]).cell.0 < cols && keys@[i].cell.1
                    < rows,
        decreases 300 - tries_k,
    {
        tries_k = tries_k + 1;
        let rr: usize = 1 + crate::generator::random_below(rows - 2);
        let cc: usize = 1 + crate::generator::random_below(cols - 2);
        if mz.read(rr, cc) == ' ' {
            keys.push(crate::world::Pickup { cell: (cc, rr), taken: false });
        }
    }
    if keys.len() == 0 {
        keys.push(crate::world::Pickup { cell: (cols / 2, rows / 2), taken: false });
    }

    let mut bins: Vec<crate::world::Pickup> = Vec::new();
    let mut tries_b: usize = 0;
    while bins.len() == 0 && tries_b < 300
        invariant
            rows == mz.rows,
            cols == mz.cols,
            3 <= rows <= 10000,
            3 <= cols <= 10000,
            mz.wf(),
            bins@.len() <= 1,
            forall|i: int|
                0 <= i < bins@.len() ==> (#[trigger] bins@[i]).cell.0 < cols && bins@[i].cell.1
                    < rows,
        decreases 300 - tries_b,
    {
        tries_b = tries_b + 1;
        let rr: usize = 1 + crate::generator::random_below(rows - 2);
        let cc: usize = 1 + crate::generator::random_below(cols - 2);
        if mz.read(rr, cc) == ' ' {
            bins.push(crate::world::Pickup { cell: (cc, rr), taken: false });
        }
    }
    if bins.len() == 0 {
        bins.push(crate::world::Pickup { cell: (cols / 2 + 1, rows / 2), taken: false });
    }

    proof {
        assert(rows * cols <= 10000 * 10000) by (nonlinear_arith)
            requires
                rows <= 10000,
                cols <= 10000,
        ;
        assert(rows * cols >= 1 * 1) by (nonlinear_arith)
            requires
                rows >= 1,
                cols >= 1,
        ;
    }
    let mut fog: crate::fog::Fog = Grid::new(rows, cols, false);
    let pcx: usize = (px / FP / bs) as usize;
    let pcy: usize = (py / FP / bs) as usize;
    reveal_fog(&mut fog, pcx, pcy, 2);

    let w = World {
        maze: mz,
        block_size,
        player,
        enemies,
        medkits,
        keys,
        bins,
        fog,
        goal_unlocked: false,
    };
    w
}

} // verus!
