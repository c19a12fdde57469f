use vstd::prelude::*;

verus! {

use crate::grid::{
    Grid,
    count_true,
    lemma_count_all_false,
    lemma_count_true_le_len,
    lemma_count_true_update,
    lemma_flat_index_bound,
};
use crate::maze::{Maze, is_walkable};

/// Cells are (column, row) pairs, as the entities carry them.
pub open spec fn in_bounds(m: Maze, c: (usize, usize)) -> bool {
    c.0 < m.cols && c.1 < m.rows
}

/// The maze symbol at cell `c`.
pub open spec fn cell_at(m: Maze, c: (usize, usize)) -> char {
    m.at(c.1 as int, c.0 as int)
}

/// The boolean mark of cell `c` in a scratch grid.
pub open spec fn mark_at(g: Grid<bool>, c: (usize, usize)) -> bool {
    g.at(c.1 as int, c.0 as int)
}

/// The recorded breadth-first distance of cell `c`.
pub open spec fn dist_at(g: Grid<usize>, c: (usize, usize)) -> usize {
    g.at(c.1 as int, c.0 as int)
}

/// The recorded predecessor of cell `c`.
pub open spec fn parent_at(g: Grid<Option<(usize, usize)>>, c: (usize, usize)) -> Option<
    (usize, usize),
> {
    g.at(c.1 as int, c.0 as int)
}

/// Four-connected grid adjacency: one step along exactly one axis.
pub open spec fn adjacent(a: (usize, usize), b: (usize, usize)) -> bool {
    ||| (a.0 == b.0 && (a.1 + 1 == b.1 || b.1 + 1 == a.1))
    ||| (a.1 == b.1 && (a.0 + 1 == b.0 || b.0 + 1 == a.0))
}

/// The j-th 4-neighbor of `c`, as unbounded coordinates.
pub open spec fn neighbor_of(c: (usize, usize), j: int) -> (int, int) {
    if j == 0 {
        (c.0 + 1, c.1 as int)
    } else if j == 1 {
        (c.0 - 1, c.1 as int)
    } else if j == 2 {
        (c.0 as int, c.1 + 1)
    } else {
        (c.0 as int, c.1 - 1)
    }
}

/// Every 4-neighbor is `neighbor_of` for some direction index.
proof fn lemma_adjacent_cases(a: (usize, usize), b: (usize, usize))
    requires
        adjacent(a, b),
    ensures
        exists|j: int| 0 <= j < 4 && neighbor_of(a, j) == (b.0 as int, b.1 as int),
{
    if a.0 == b.0 && a.1 + 1 == b.1 {
        assert(neighbor_of(a, 2) == (b.0 as int, b.1 as int));
    } else if a.0 == b.0 && b.1 + 1 == a.1 {
        assert(neighbor_of(a, 3) == (b.0 as int, b.1 as int));
    } else if a.1 == b.1 && a.0 + 1 == b.0 {
        assert(neighbor_of(a, 0) == (b.0 as int, b.1 as int));
    } else {
        assert(neighbor_of(a, 1) == (b.0 as int, b.1 as int));
    }
}

/// `s` is a walkable path through `m` from `start` to `target`: it
/// begins at `start`, ends at `target`, moves one 4-neighbor step at a
/// time, stays in bounds, and every cell after the first is traversable.
pub open spec fn is_path(
    m: Maze,
    s: Seq<(usize, usize)>,
    start: (usize, usize),
    target: (usize, usize),
) -> bool {
    &&& s.len() > 0
    &&& s[0] == start
    &&& s[s.len() - 1] == target
    &&& forall|i: int| 0 <= i < s.len() ==> in_bounds(m, #[trigger] s[i])
    &&& forall|i: int| 1 <= i < s.len() ==> adjacent(s[i - 1], #[trigger] s[i])
    &&& forall|i: int| 1 <= i < s.len() ==> is_walkable(cell_at(m, #[trigger] s[i]))
}

/// `target` can be reached from `start` through walkable cells.
pub open spec fn reachable(m: Maze, start: (usize, usize), target: (usize, usize)) -> bool {
    exists|s: Seq<(usize, usize)>| is_path(m, s, start, target)
}

/// Every walkable in-bounds neighbor of `c` carries the visited mark.
pub open spec fn expanded(m: Maze, visited: Grid<bool>, c: (usize, usize)) -> bool {
    forall|b: (usize, usize)|
        in_bounds(m, b) && #[trigger] adjacent(c, b) && is_walkable(cell_at(m, b)) ==> mark_at(
            visited,
            b,
        )
}

/// The neighbor of `c` in direction `j`, if walkable and in bounds,
/// carries the visited mark.
pub open spec fn neighbor_processed(m: Maze, visited: Grid<bool>, c: (usize, usize), j: int) -> bool {
    let b = neighbor_of(c, j);
    (0 <= b.0 < m.cols && 0 <= b.1 < m.rows && is_walkable(m.at(b.1, b.0))) ==> visited.at(
        b.1,
        b.0,
    )
}

/// The recorded predecessor link of a visited non-start cell: a visited
/// adjacent in-bounds cell one breadth-first step closer to the start,
/// and the cell itself is walkable.
pub open spec fn parent_link_ok(
    m: Maze,
    visited: Grid<bool>,
    parent: Grid<Option<(usize, usize)>>,
    dist: Grid<usize>,
    c: (usize, usize),
) -> bool {
    let p = parent_at(parent, c);
    &&& p is Some
    &&& in_bounds(m, p->Some_0)
    &&& mark_at(visited, p->Some_0)
    &&& adjacent(p->Some_0, c)
    &&& is_walkable(cell_at(m, c))
    &&& dist_at(dist, c) == dist_at(dist, p->Some_0) + 1
}

/// The breadth-first search state invariant: the scratch grids match the
/// maze, every queued cell is visited and in bounds, every visited cell
/// was queued, non-start visited cells carry sound predecessor links,
/// and the visit counter tracks the number of marks.
pub open spec fn bfs_state_ok(
    m: Maze,
    visited: Grid<bool>,
    parent: Grid<Option<(usize, usize)>>,
    dist: Grid<usize>,
    q: Seq<(usize, usize)>,
    vc: int,
    start: (usize, usize),
) -> bool {
    &&& visited.wf() && visited.rows == m.rows && visited.cols == m.cols
    &&& parent.wf() && parent.rows == m.rows && parent.cols == m.cols
    &&& dist.wf() && dist.rows == m.rows && dist.cols == m.cols
    &&& in_bounds(m, start)
    &&& mark_at(visited, start)
    &&& dist_at(dist, start) == 0
    &&& forall|i: int|
        0 <= i < q.len() ==> in_bounds(m, #[trigger] q[i]) && mark_at(visited, q[i])
    &&& forall|c: (usize, usize)|
        in_bounds(m, c) && #[trigger] mark_at(visited, c) ==> q.contains(c)
    &&& forall|c: (usize, usize)|
        in_bounds(m, c) && #[trigger] mark_at(visited, c) && c != start ==> parent_link_ok(
            m,
            visited,
            parent,
            dist,
            c,
        )
    &&& forall|c: (usize, usize)|
        in_bounds(m, c) && #[trigger] mark_at(visited, c) ==> dist_at(dist, c) < vc
    &&& vc == count_true(visited.cells@)
    &&& q.len() <= vc
    &&& vc <= m.rows * m.cols
}

/// An expanded cell stays expanded when the visited set grows.
proof fn lemma_expanded_monotone(m: Maze, v1: Grid<bool>, v2: Grid<bool>, c: (usize, usize))
    requires
        expanded(m, v1, c),
        forall|b: (usize, usize)| in_bounds(m, b) && #[trigger] mark_at(v1, b) ==> mark_at(v2, b),
    ensures
        expanded(m, v2, c),
{
    assert forall|b: (usize, usize)|
        in_bounds(m, b) && #[trigger] adjacent(c, b) && is_walkable(cell_at(m, b)) implies mark_at(
        v2,
        b,
    ) by {
        assert(mark_at(v1, b));
    }
}

/// Mark one freshly reached cell: record its predecessor and distance,
/// enqueue it, and keep the search invariant.
fn visit_cell(
    m: &Maze,
    visited: &mut Grid<bool>,
    parent: &mut Grid<Option<(usize, usize)>>,
    dist: &mut Grid<usize>,
    queue: &mut Vec<(usize, usize)>,
    vc: &mut usize,
    from: (usize, usize),
    to: (usize, usize),
    start: Ghost<(usize, usize)>,
)
    requires
        m.wf(),
        m.rows * m.cols <= 100000000,
        bfs_state_ok(
            *m,
            *old(visited),
            *old(parent),
            *old(dist),
            old(queue)@,
            *old(vc) as int,
            start@,
        ),
        in_bounds(*m, from),
        in_bounds(*m, to),
        adjacent(from, to),
        is_walkable(cell_at(*m, to)),
        mark_at(*old(visited), from),
        !mark_at(*old(visited), to),
    ensures
        bfs_state_ok(
            *m,
            *final(visited),
            *final(parent),
            *final(dist),
            final(queue)@,
            *final(vc) as int,
            start@,
        ),
        final(queue)@ == old(queue)@.push(to),
        *final(vc) == *old(vc) + 1,
        forall|b: (usize, usize)|
            in_bounds(*m, b) && #[trigger] mark_at(*old(visited), b) ==> mark_at(
                *final(visited),
                b,
            ),
        mark_at(*final(visited), to),
        forall|b: (usize, usize)|
            in_bounds(*m, b) && #[trigger] mark_at(*final(visited), b) ==> mark_at(
                *old(visited),
                b,
            ) || b == to,
{
    let d0: usize = dist.read(from.1, from.0);
    proof {
        lemma_count_true_le_len(old(visited).cells@);
        lemma_flat_index_bound(to.1 as int, to.0 as int, m.rows as int, m.cols as int);
        lemma_count_true_update(old(visited).cells@, to.1 as int * m.cols + to.0);
    }
    visited.set(to.1, to.0, true);
    parent.set(to.1, to.0, Some(from));
    dist.set(to.1, to.0, d0 + 1);
    queue.push(to);
    proof {
        lemma_count_true_le_len(visited.cells@);
    }
    *vc = *vc + 1;
    proof {
        let v2 = *visited;
        let q2 = queue@;
        assert forall|c: (usize, usize)|
            in_bounds(*m, c) && #[trigger] mark_at(v2, c) && c != start@ implies parent_link_ok(
            *m,
            v2,
            *parent,
            *dist,
            c,
        ) by {
            if c == to {
                assert(parent_at(*parent, to) == Some(from));
            } else {
                assert(mark_at(*old(visited), c));
                if c != start@ {
                    assert(parent_link_ok(*m, *old(visited), *old(parent), *old(dist), c));
                }
            }
        }
        assert forall|c: (usize, usize)|
            in_bounds(*m, c) && #[trigger] mark_at(v2, c) implies q2.contains(c) by {
            if c == to {
                assert(q2[q2.len() - 1] == to);
            } else {
                assert(mark_at(*old(visited), c));
                let i = choose|i: int| 0 <= i < old(queue)@.len() && old(queue)@[i] == c;
                assert(q2[i] == c);
            }
        }
        assert forall|c: (usize, usize)|
            in_bounds(*m, c) && #[trigger] mark_at(v2, c) implies dist_at(*dist, c) < *vc by {
            if c != to {
                assert(mark_at(*old(visited), c));
            }
        }
    }
}

/// Breadth-first shortest-path search over walkable cells, 4-connected.
///
/// Returns a path from `start` to `target` inclusive of both endpoints,
/// or an empty vector exactly when no walkable path exists.
pub fn bfs_path(m: &Maze, start: (usize, usize), target: (usize, usize)) -> (path: Vec<
    (usize, usize),
>)
    requires
        m.wf(),
        m.rows <= 10000,
        m.cols <= 10000,
        in_bounds(*m, start),
        in_bounds(*m, target),
    ensures
        path@.len() > 0 ==> is_path(*m, path@, start, target),
        path@.len() == 0 ==> !reachable(*m, start, target),
{
    let rows: usize = m.rows;
    let cols: usize = m.cols;
    proof {
        assert(rows * cols <= 10000 * 10000) by (nonlinear_arith)
            requires
                rows <= 10000,
                cols <= 10000,
        ;
        assert(rows * cols >= 1 * 1) by (nonlinear_arith)
            requires
                rows >= 1,
                cols >= 1,
        ;
    }
    let mut visited: Grid<bool> = Grid::new(rows, cols, false);
    let mut parent: Grid<Option<(usize, usize)>> = Grid::new(rows, cols, None);
    let mut dist: Grid<usize> = Grid::new(rows, cols, 0);
    let mut queue: Vec<(usize, usize)> = Vec::new();
    let mut vc: usize = 1;
    proof {
        lemma_flat_index_bound(start.1 as int, start.0 as int, rows as int, cols as int);
        lemma_count_true_update(visited.cells@, start.1 as int * cols + start.0);
        assert(count_true(visited.cells@) == 0) by {
            lemma_count_all_false(visited.cells@);
        }
    }
    visited.set(start.1, start.0, true);
    queue.push(start);
    proof {
        lemma_count_true_le_len(visited.cells@);
        assert forall|c: (usize, usize)|
            in_bounds(*m, c) && #[trigger] mark_at(visited, c) implies c == start by {
            if c.0 != start.0 || c.1 != start.1 {
                assert(!(c.1 as int == start.1 as int && c.0 as int == start.0 as int));
                assert(!mark_at(visited, c));
            }
        }
        assert(queue@[0] == start);
        assert(mark_at(visited, start));
        assert forall|c: (usize, usize)|
            in_bounds(*m, c) && #[trigger] mark_at(visited, c) implies queue@.contains(c) by {
            assert(c == start);
            assert(queue@[0] == c);
        }
    }
    let mut head: usize = 0;
    while head < queue.len()
        invariant
            m.wf(),
            rows == m.rows,
            cols == m.cols,
            rows <= 10000,
            cols <= 10000,
            rows * cols <= 10000 * 10000,
            in_bounds(*m, start),
            in_bounds(*m, target),
            head <= queue@.len(),
            bfs_state_ok(*m, visited, parent, dist, queue@, vc as int, start),
            forall|i: int| 0 <= i < head ==> expanded(*m, visited, #[trigger] queue@[i]),
        decreases rows * cols - head,
    {
        let cur: (usize, usize) = queue[head];
        let mut j: usize = 0;
        while j < 4
            invariant
                m.wf(),
                rows == m.rows,
                cols == m.cols,
                rows <= 10000,
                cols <= 10000,
                in_bounds(*m, start),
                rows * cols <= 100000000,
                head < queue@.len(),
                cur == queue@[head as int],
                j <= 4,
                bfs_state_ok(*m, visited, parent, dist, queue@, vc as int, start),
                forall|i: int| 0 <= i < head ==> expanded(*m, visited, #[trigger] queue@[i]),
                forall|jj: int| 0 <= jj < j ==> neighbor_processed(*m, visited, cur, jj),
            decreases 4 - j,
        {
            let cx: i64 = cur.0 as i64;
            let cy: i64 = cur.1 as i64;
            let nxi: i64 = if j == 0 {
                cx + 1
            } else if j == 1 {
                cx - 1
            } else {
                cx
            };
            let nyi: i64 = if j == 2 {
                cy + 1
            } else if j == 3 {
                cy - 1
            } else {
                cy
            };
            proof {
                assert((nxi as int, nyi as int) == neighbor_of(cur, j as int));
            }
            let ghost vis0 = visited;
            let ghost q0 = queue@;
            if 0 <= nxi && nxi < cols as i64 && 0 <= nyi && nyi < rows as i64 {
                let nx: usize = nxi as usize;
                let ny: usize = nyi as usize;
                let ch: char = m.read(ny, nx);
                if (ch == ' ' || ch == 'p' || ch == 'g') && !visited.read(ny, nx) {
                    proof {
                        assert(adjacent(cur, (nx, ny)));
                    }
                    visit_cell(
                        m,
                        &mut visited,
                        &mut parent,
                        &mut dist,
                        &mut queue,
                        &mut vc,
                        cur,
                        (nx, ny),
                        Ghost(start),
                    );
                    proof {
                        assert forall|i: int|
                            0 <= i < head implies expanded(*m, visited, #[trigger] queue@[i]) by {
                            assert(queue@[i] == q0[i]);
                            assert(expanded(*m, vis0, q0[i]));
                            lemma_expanded_monotone(*m, vis0, visited, queue@[i]);
                        }
                        assert forall|jj: int|
                            0 <= jj < j implies neighbor_processed(*m, visited, cur, jj) by {
                            assert(neighbor_processed(*m, vis0, cur, jj));
                            let b = neighbor_of(cur, jj as int);
                            if 0 <= b.0 < m.cols && 0 <= b.1 < m.rows && is_walkable(
                                m.at(b.1, b.0),
                            ) {
                                let bu = (b.0 as usize, b.1 as usize);
                                assert(vis0.at(b.1, b.0));
                                assert(mark_at(vis0, bu));
                                assert(in_bounds(*m, bu));
                                assert(mark_at(visited, bu));
                                assert(visited.at(b.1, b.0));
                            }
                        }
                    }
                }
            }
            j = j + 1;
        }
        proof {
            assert(expanded(*m, visited, cur)) by {
                assert forall|b: (usize, usize)|
                    in_bounds(*m, b) && #[trigger] adjacent(cur, b) && is_walkable(cell_at(*m, b))
                    implies mark_at(visited, b) by {
                    lemma_adjacent_cases(cur, b);
                    let jj = choose|jj: int|
                        0 <= jj < 4 && neighbor_of(cur, jj) == (b.0 as int, b.1 as int);
                    assert(neighbor_processed(*m, visited, cur, jj));
                }
            }
        }
        head = head + 1;
    }
    if !visited.read(target.1, target.0) {
        proof {
            assert(!reachable(*m, start, target)) by {
                if reachable(*m, start, target) {
                    let s = choose|s: Seq<(usize, usize)>| is_path(*m, s, start, target);
                    lemma_path_visited(*m, visited, queue@, head as int, s, start, target, s.len() - 1);
                }
            }
        }
        return Vec::new();
    }
    // Walk the predecessor links back from the target, then reverse.
    let mut rev: Vec<(usize, usize)> = Vec::new();
    let mut cur: (usize, usize) = target;
    rev.push(target);
    while cur.0 != start.0 || cur.1 != start.1
        invariant
            m.wf(),
            bfs_state_ok(*m, visited, parent, dist, queue@, vc as int, start),
            in_bounds(*m, cur),
            mark_at(visited, cur),
            rev@.len() > 0,
            rev@[0] == target,
            rev@[rev@.len() - 1] == cur,
            forall|i: int| 0 <= i < rev@.len() ==> in_bounds(*m, #[trigger] rev@[i]),
            forall|i: int| 1 <= i < rev@.len() ==> adjacent(rev@[i - 1], #[trigger] rev@[i]),
            forall|i: int|
                0 <= i < rev@.len() - 1 ==> is_walkable(cell_at(*m, #[trigger] rev@[i])),
        decreases dist_at(dist, cur),
    {
        proof {
            assert(parent_link_ok(*m, visited, parent, dist, cur));
        }
        let p: Option<(usize, usize)> = parent.read(cur.1, cur.0);
        let pc: (usize, usize) = p.unwrap();
        rev.push(pc);
        cur = pc;
    }
    let mut path: Vec<(usize, usize)> = Vec::new();
    let n: usize = rev.len();
    let mut i: usize = 0;
    while i < n
        invariant
            n == rev@.len(),
            i <= n,
            path@.len() == i,
            forall|k: int| 0 <= k < i ==> #[trigger] path@[k] == rev@[n - 1 - k],
        decreases n - i,
    {
        let c: (usize, usize) = rev[n - 1 - i];
        path.push(c);
        i = i + 1;
    }
    proof {
        assert(path@[0] == rev@[n - 1]);
        assert(path@[path@.len() - 1] == rev@[0]);
        assert forall|k: int| 1 <= k < path@.len() implies adjacent(path@[k - 1], #[trigger] path@[k]) by {
            assert(path@[k - 1] == rev@[n - k]);
            assert(path@[k] == rev@[n - 1 - k]);
            assert(adjacent(rev@[n - 1 - k], rev@[n - k]));
        }
        assert forall|k: int| 1 <= k < path@.len() implies is_walkable(
            cell_at(*m, #[trigger] path@[k]),
        ) by {
            assert(path@[k] == rev@[n - 1 - k]);
        }
        assert forall|k: int| 0 <= k < path@.len() implies in_bounds(*m, #[trigger] path@[k]) by {
            assert(path@[k] == rev@[n - 1 - k]);
        }
    }
    path
}

/// Once the queue is exhausted, the visited set is closed under walkable
/// adjacency, so every cell of a walkable path from the start is visited.
proof fn lemma_path_visited(
    m: Maze,
    visited: Grid<bool>,
    q: Seq<(usize, usize)>,
    head: int,
    s: Seq<(usize, usize)>,
    start: (usize, usize),
    target: (usize, usize),
    i: int,
)
    requires
        is_path(m, s, start, target),
        0 <= i < s.len(),
        mark_at(visited, start),
        in_bounds(m, start),
        head == q.len(),
        forall|k: int| 0 <= k < q.len() ==> in_bounds(m, #[trigger] q[k]) && mark_at(visited, q[k]),
        forall|c: (usize, usize)| in_bounds(m, c) && #[trigger] mark_at(visited, c) ==> q.contains(c),
        forall|k: int| 0 <= k < head ==> expanded(m, visited, #[trigger] q[k]),
    ensures
        mark_at(visited, s[i]),
    decreases i,
{
    if i == 0 {
        assert(s[0] == start);
    } else {
        lemma_path_visited(m, visited, q, head, s, start, target, i - 1);
        let prev = s[i - 1];
        assert(mark_at(visited, prev));
        assert(in_bounds(m, prev));
        let k = choose|k: int| 0 <= k < q.len() && q[k] == prev;
        assert(expanded(m, visited, prev));
        assert(adjacent(prev, s[i]));
        assert(in_bounds(m, s[i]));
        assert(is_walkable(cell_at(m, s[i])));
    }
}

} // verus!
