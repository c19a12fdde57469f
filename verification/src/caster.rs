use vstd::prelude::*;

verus! {

use crate::maze::{Maze, is_open};

/// Fixed-point scale: world lengths are carried as multiples of 1/1024
/// of a world unit, and direction components as multiples of 1/1024 of
/// a unit vector component.
pub const FP: i64 = 1024;

/// Sentinel for an infinite per-axis crossing distance: far above any
/// side distance a bounded walk can accumulate.
pub const INF_SIDE: i64 = 4_000_000_000_000_000;

/// Step budget of the grid walk.
pub const MAX_STEPS: usize = 2000;

/// The outcome of one cast ray.
pub struct Intersect {
    /// Perpendicular distance to the struck wall, fixed-point world
    /// units; a synthetic far distance when nothing was struck.
    pub distance: i64,
    /// The struck cell's symbol.
    pub impact: char,
    /// World coordinates of the impact point, fixed point.
    pub hit_x: i64,
    pub hit_y: i64,
    /// The struck cell, clamped into the grid.
    pub cell_i: usize,
    pub cell_j: usize,
    /// True exactly when a non-open cell inside the grid was struck.
    pub hit: bool,
    /// 0 when the last step crossed a vertical gridline, 1 when a
    /// horizontal one: selects shading and texture orientation.
    pub side: usize,
}


/// The cell at offset `t` along an axis: row `fixed` when horizontal,
/// column `fixed` when vertical.
pub open spec fn axis_cell(m: Maze, fixed: int, t: int, horizontal: bool) -> char {
    if horizontal {
        m.at(fixed, t)
    } else {
        m.at(t, fixed)
    }
}

/// The axis extent: columns when horizontal, rows when vertical.
pub open spec fn axis_len(m: Maze, horizontal: bool) -> int {
    if horizontal {
        m.cols as int
    } else {
        m.rows as int
    }
}

/// Every cell strictly between `lo` and `hi` along the axis is inside
/// the grid and open.
pub open spec fn open_span(m: Maze, fixed: int, lo: int, hi: int, horizontal: bool) -> bool
    decreases hi - lo,
{
    if hi <= lo + 1 {
        true
    } else {
        &&& 0 <= lo + 1 < axis_len(m, horizontal)
        &&& axis_cell(m, fixed, lo + 1, horizontal) == ' '
        &&& open_span(m, fixed, lo + 1, hi, horizontal)
    }
}

/// A span grows upward across one more open cell.
proof fn lemma_span_extend_high(m: Maze, fixed: int, lo: int, hi: int, horizontal: bool)
    requires
        open_span(m, fixed, lo, hi, horizontal),
        lo <= hi,
        0 <= hi < axis_len(m, horizontal),
        axis_cell(m, fixed, hi, horizontal) == ' ',
    ensures
        open_span(m, fixed, lo, hi + 1, horizontal),
    decreases hi - lo,
{
    if hi <= lo + 1 {
        assert(open_span(m, fixed, hi, hi + 1, horizontal));
    } else {
        lemma_span_extend_high(m, fixed, lo + 1, hi, horizontal);
    }
}

/// A span grows downward across one more open cell.
proof fn lemma_span_extend_low(m: Maze, fixed: int, lo: int, hi: int, horizontal: bool)
    requires
        open_span(m, fixed, lo, hi, horizontal),
        lo <= hi,
        0 <= lo < axis_len(m, horizontal),
        axis_cell(m, fixed, lo, horizontal) == ' ',
    ensures
        open_span(m, fixed, lo - 1, hi, horizontal),
{
}

/// A span names each of its cells open and in bounds.
proof fn lemma_span_cells(m: Maze, fixed: int, lo: int, hi: int, horizontal: bool, t: int)
    requires
        open_span(m, fixed, lo, hi, horizontal),
        lo < t < hi,
    ensures
        0 <= t < axis_len(m, horizontal),
        axis_cell(m, fixed, t, horizontal) == ' ',
    decreases hi - lo,
{
    if t == lo + 1 {
    } else {
        lemma_span_cells(m, fixed, lo + 1, hi, horizontal, t);
    }
}

/// Cast a ray from fixed-point world position (px, py) along direction
/// (dir_x, dir_y) (fixed-point components of a unit vector), stepping
/// cell by cell until a non-open symbol is struck, the walk leaves the
/// grid, or the step budget runs out. A struck wall reports the
/// perpendicular distance, reconstructed from the axis that produced
/// the hit, so the intersection search itself introduces no fisheye;
/// a walk that leaves the grid or exhausts its budget reports the
/// synthetic far distance `(rows + cols) * block`. The impact point is
/// the origin advanced along the direction by the reported distance.
///
/// For an axis-aligned ray the contract is exact in all four
/// directions: a hit reports the distance to the struck wall plane,
/// and a miss means every cell of the corridor ahead (within budget
/// and grid) is open.
#[verifier::rlimit(100)]
#[verifier::spinoff_prover]
pub fn cast_ray(maze: &Maze, px: i64, py: i64, dir_x: i64, dir_y: i64, block_size: usize) -> (r:
    Intersect)
    requires
        maze.wf(),
        1 <= maze.rows <= 10000,
        1 <= maze.cols <= 10000,
        1 <= block_size <= 10000,
        0 <= px <= 120_000_000_000,
        0 <= py <= 120_000_000_000,
        -FP <= dir_x <= FP,
        -FP <= dir_y <= FP,
        dir_x != 0 || dir_y != 0,
    ensures
        r.cell_i < maze.cols,
        r.cell_j < maze.rows,
        r.impact == maze.at(r.cell_j as int, r.cell_i as int),
        r.distance >= 0,
        r.hit ==> !is_open(r.impact),
        !r.hit ==> r.distance == (maze.rows + maze.cols) * block_size * (FP as int),
        r.hit_x == spec_ray_point(px as int, dir_x as int, r.distance as int),
        r.hit_y == spec_ray_point(py as int, dir_y as int, r.distance as int),
        r.side == 0 || r.side == 1,
        (r.hit && dir_y == 0 && dir_x == FP) ==> {
            &&& r.cell_j as int == py as int / block_size as int / (FP as int)
            &&& r.distance == (r.cell_i as int * (FP as int) - px as int / block_size as int)
                * block_size as int
        },
        (r.hit && dir_x == 0 && dir_y == FP) ==> {
            &&& r.cell_i as int == px as int / block_size as int / (FP as int)
            &&& r.distance == (r.cell_j as int * (FP as int) - py as int / block_size as int)
                * block_size as int
        },
        (r.hit && dir_y == 0 && dir_x == -FP) ==> {
            &&& r.cell_j as int == py as int / block_size as int / (FP as int)
            &&& r.distance == (px as int / block_size as int - (r.cell_i as int + 1) * (
            FP as int)) * block_size as int
        },
        (r.hit && dir_x == 0 && dir_y == -FP) ==> {
            &&& r.cell_i as int == px as int / block_size as int / (FP as int)
            &&& r.distance == (py as int / block_size as int - (r.cell_j as int + 1) * (
            FP as int)) * block_size as int
        },
        (!r.hit && dir_y == 0 && dir_x == FP && 0 <= py as int / block_size as int / (FP as int)
            < maze.rows) ==> (forall|xx: int|
            px as int / block_size as int / (FP as int) < xx < px as int / block_size as int / (
            FP as int) + 2001 && xx < maze.cols ==> is_open(
                #[trigger] maze.at(py as int / block_size as int / (FP as int), xx),
            )),
        (!r.hit && dir_x == 0 && dir_y == FP && 0 <= px as int / block_size as int / (FP as int)
            < maze.cols) ==> (forall|yy: int|
            py as int / block_size as int / (FP as int) < yy < py as int / block_size as int / (
            FP as int) + 2001 && yy < maze.rows ==> is_open(
                #[trigger] maze.at(yy, px as int / block_size as int / (FP as int)),
            )),
        (!r.hit && dir_y == 0 && dir_x == -FP && 0 <= py as int / block_size as int / (FP as int)
            < maze.rows && px as int / block_size as int / (FP as int) < maze.cols) ==> (
        forall|xx: int|
            px as int / block_size as int / (FP as int) - 2001 < xx < px as int
                / block_size as int / (FP as int) && 0 <= xx ==> is_open(
                #[trigger] maze.at(py as int / block_size as int / (FP as int), xx),
            )),
        (!r.hit && dir_x == 0 && dir_y == -FP && 0 <= px as int / block_size as int / (FP as int)
            < maze.cols && py as int / block_size as int / (FP as int) < maze.rows) ==> (
        forall|yy: int|
            py as int / block_size as int / (FP as int) - 2001 < yy < py as int
                / block_size as int / (FP as int) && 0 <= yy ==> is_open(
                #[trigger] maze.at(yy, px as int / block_size as int / (FP as int)),
            )),
{
    let bs: i64 = block_size as i64;
    let rows_i: i64 = maze.rows as i64;
    let cols_i: i64 = maze.cols as i64;
    let map_fp_x: i64 = px / bs;
    let map_fp_y: i64 = py / bs;
    let start_cx: i64 = map_fp_x / FP;
    let start_cy: i64 = map_fp_y / FP;
    let mut map_x: i64 = start_cx;
    let mut map_y: i64 = start_cy;

    let adx: i64 = if dir_x < 0 {
        -dir_x
    } else {
        dir_x
    };
    let ady: i64 = if dir_y < 0 {
        -dir_y
    } else {
        dir_y
    };
    let num: i64 = bs * FP * FP;
    proof {
        lemma_div_range(num as int, adx as int);
        lemma_div_range(num as int, ady as int);
    }
    let delta_x: i64 = if adx == 0 {
        INF_SIDE
    } else {
        num / adx
    };
    let delta_y: i64 = if ady == 0 {
        INF_SIDE
    } else {
        num / ady
    };

    let frac_x: i64 = map_fp_x % FP;
    let frac_y: i64 = map_fp_y % FP;
    let mut step_x: i64 = 1;
    let mut step_y: i64 = 1;
    let mut side_x: i64 = INF_SIDE;
    let mut side_y: i64 = INF_SIDE;
    if dir_x < 0 {
        step_x = -1;
        proof {
            lemma_scaled_le(frac_x as int, delta_x as int);
        }
        side_x = frac_x * delta_x / FP;
    } else if dir_x > 0 {
        step_x = 1;
        proof {
            lemma_scaled_le((FP - frac_x) as int, delta_x as int);
        }
        side_x = (FP - frac_x) * delta_x / FP;
    }
    if dir_y < 0 {
        step_y = -1;
        proof {
            lemma_scaled_le(frac_y as int, delta_y as int);
        }
        side_y = frac_y * delta_y / FP;
    } else if dir_y > 0 {
        step_y = 1;
        proof {
            lemma_scaled_le((FP - frac_y) as int, delta_y as int);
        }
        side_y = (FP - frac_y) * delta_y / FP;
    }

    let mut hit: bool = false;
    let mut exited: bool = false;
    let mut side: usize = 0;
    let mut iter: usize = 0;
    while iter < MAX_STEPS && !hit && !exited
        invariant
            maze.wf(),
            1 <= maze.rows <= 10000,
            1 <= maze.cols <= 10000,
            rows_i == maze.rows,
            cols_i == maze.cols,
            1 <= bs <= 10000,
            0 <= px <= 120_000_000_000,
            0 <= py <= 120_000_000_000,
            -FP <= dir_x <= FP,
            -FP <= dir_y <= FP,
            dir_x != 0 || dir_y != 0,
            map_fp_x == px / bs,
            map_fp_y == py / bs,
            start_cx == map_fp_x / FP,
            start_cy == map_fp_y / FP,
            adx as int == (if dir_x < 0 { -(dir_x as int) } else { dir_x as int }),
            ady as int == (if dir_y < 0 { -(dir_y as int) } else { dir_y as int }),
            num == bs * FP * FP,
            dir_x != 0 ==> delta_x == num / adx && 1 <= delta_x <= 10_485_760_000,
            dir_y != 0 ==> delta_y == num / ady && 1 <= delta_y <= 10_485_760_000,
            dir_x == 0 ==> delta_x == INF_SIDE && side_x == INF_SIDE,
            dir_y == 0 ==> delta_y == INF_SIDE && side_y == INF_SIDE,
            step_x == (if dir_x < 0 { -1i64 } else { 1i64 }),
            step_y == (if dir_y < 0 { -1i64 } else { 1i64 }),
            iter <= MAX_STEPS,
            dir_x != 0 ==> 0 <= side_x <= (iter + 1) * 10_485_760_000,
            dir_y != 0 ==> 0 <= side_y <= (iter + 1) * 10_485_760_000,
            start_cx - iter <= map_x <= start_cx + iter,
            start_cy - iter <= map_y <= start_cy + iter,
            side == 0 || side == 1,
            side == 0 && (hit || exited || iter > 0) ==> dir_x != 0,
            side == 1 ==> dir_y != 0,
            dir_x == 0 ==> (side == 1 || (iter == 0 && !hit && !exited)),
            hit || exited ==> iter > 0,
            hit ==> 0 <= map_x < cols_i && 0 <= map_y < rows_i && maze.at(
                map_y as int,
                map_x as int,
            ) != ' ',
            exited ==> !(0 <= map_x < cols_i && 0 <= map_y < rows_i),
            // Horizontal ray: the row never changes, the column advances
            // one cell per step toward the direction's sign, and every
            // strictly passed cell was open and in bounds.
            dir_y == 0 ==> {
                &&& map_y == start_cy
                &&& side == 0
                &&& map_x == start_cx + (if dir_x < 0 {
                    -(iter as int)
                } else {
                    iter as int
                })
            },
            dir_y == 0 ==> (if dir_x < 0 {
                open_span(*maze, start_cy as int, map_x as int, start_cx as int, true)
            } else {
                open_span(*maze, start_cy as int, start_cx as int, map_x as int, true)
            }),
            // Vertical ray, symmetric.
            dir_x == 0 ==> {
                &&& map_x == start_cx
                &&& (side == 1 || (iter == 0 && !hit && !exited))
                &&& map_y == start_cy + (if dir_y < 0 {
                    -(iter as int)
                } else {
                    iter as int
                })
            },
            dir_x == 0 ==> (if dir_y < 0 {
                open_span(*maze, start_cx as int, map_y as int, start_cy as int, false)
            } else {
                open_span(*maze, start_cx as int, start_cy as int, map_y as int, false)
            }),
            // The cell the walk currently stands on, once it has stepped
            // and neither struck nor left, is open and in bounds.
            !hit && !exited && iter > 0 ==> 0 <= map_x < cols_i && 0 <= map_y < rows_i && maze.at(
                map_y as int,
                map_x as int,
            ) == ' ',
        decreases MAX_STEPS - iter,
    {
        let ghost omap_x = map_x as int;
        let ghost omap_y = map_y as int;
        let ghost oiter = iter as int;
        iter = iter + 1;
        if side_x < side_y {
            side_x = side_x + delta_x;
            map_x = map_x + step_x;
            side = 0;
        } else {
            side_y = side_y + delta_y;
            map_y = map_y + step_y;
            side = 1;
        }
        if map_x < 0 || map_y < 0 || map_x >= cols_i || map_y >= rows_i {
            exited = true;
        } else {
            let ch: char = maze.read(map_y as usize, map_x as usize);
            if ch != ' ' {
                hit = true;
            }
        }
        proof {
            if dir_y == 0 {
                if oiter > 0 {
                    if dir_x < 0 {
                        lemma_span_extend_low(*maze, start_cy as int, omap_x, start_cx as int, true);
                    } else {
                        lemma_span_extend_high(
                            *maze,
                            start_cy as int,
                            start_cx as int,
                            omap_x,
                            true,
                        );
                    }
                }
            }
            if dir_x == 0 {
                if oiter > 0 {
                    if dir_y < 0 {
                        lemma_span_extend_low(
                            *maze,
                            start_cx as int,
                            omap_y,
                            start_cy as int,
                            false,
                        );
                    } else {
                        lemma_span_extend_high(
                            *maze,
                            start_cx as int,
                            start_cy as int,
                            omap_y,
                            false,
                        );
                    }
                }
            }
        }
    }

    proof {
        if !hit && dir_y == 0 && 0 <= start_cy < rows_i {
            if dir_x == FP {
                assert forall|xx: int|
                    start_cx < xx < start_cx + 2001 && xx < cols_i implies is_open(
                    #[trigger] maze.at(start_cy as int, xx),
                ) by {
                    if xx < map_x {
                        lemma_span_cells(
                            *maze,
                            start_cy as int,
                            start_cx as int,
                            map_x as int,
                            true,
                            xx,
                        );
                    } else {
                        assert(!exited && iter == MAX_STEPS && xx == map_x);
                    }
                }
            }
            if dir_x == -FP && start_cx < cols_i {
                assert forall|xx: int|
                    start_cx - 2001 < xx < start_cx && 0 <= xx implies is_open(
                    #[trigger] maze.at(start_cy as int, xx),
                ) by {
                    if map_x < xx {
                        lemma_span_cells(
                            *maze,
                            start_cy as int,
                            map_x as int,
                            start_cx as int,
                            true,
                            xx,
                        );
                    } else {
                        assert(!exited && iter == MAX_STEPS && xx == map_x);
                    }
                }
            }
        }
        if !hit && dir_x == 0 && 0 <= start_cx < cols_i {
            if dir_y == FP {
                assert forall|yy: int|
                    start_cy < yy < start_cy + 2001 && yy < rows_i implies is_open(
                    #[trigger] maze.at(yy, start_cx as int),
                ) by {
                    if yy < map_y {
                        lemma_span_cells(
                            *maze,
                            start_cx as int,
                            start_cy as int,
                            map_y as int,
                            false,
                            yy,
                        );
                    } else {
                        assert(!exited && iter == MAX_STEPS && yy == map_y);
                    }
                }
            }
            if dir_y == -FP && start_cy < rows_i {
                assert forall|yy: int|
                    start_cy - 2001 < yy < start_cy && 0 <= yy implies is_open(
                    #[trigger] maze.at(yy, start_cx as int),
                ) by {
                    if map_y < yy {
                        lemma_span_cells(
                            *maze,
                            start_cx as int,
                            map_y as int,
                            start_cy as int,
                            false,
                            yy,
                        );
                    } else {
                        assert(!exited && iter == MAX_STEPS && yy == map_y);
                    }
                }
            }
        }
    }

    let dist_world: i64 = if hit {
        if side == 0 {
            let off: i64 = map_x * FP - map_fp_x + (if step_x == 1 {
                0
            } else {
                FP
            });
            let off_abs: i64 = if off < 0 {
                -off
            } else {
                off
            };
            proof {
                assert(off_abs * bs <= 2_051_072 * 10_000 && off_abs * bs >= 0) by (nonlinear_arith)
                    requires
                        0 <= off_abs <= 2_051_072,
                        1 <= bs <= 10_000,
                ;
                lemma_div_nonneg(off_abs as int * bs * FP, adx as int);
            }
            off_abs * bs * FP / adx
        } else {
            let off: i64 = map_y * FP - map_fp_y + (if step_y == 1 {
                0
            } else {
                FP
            });
            let off_abs: i64 = if off < 0 {
                -off
            } else {
                off
            };
            proof {
                assert(off_abs * bs <= 2_051_072 * 10_000 && off_abs * bs >= 0) by (nonlinear_arith)
                    requires
                        0 <= off_abs <= 2_051_072,
                        1 <= bs <= 10_000,
                ;
                lemma_div_nonneg(off_abs as int * bs * FP, ady as int);
            }
            off_abs * bs * FP / ady
        }
    } else {
        proof {
            assert((rows_i + cols_i) * bs <= 20_000 * 10_000 && (rows_i + cols_i) * bs >= 0)
                by (nonlinear_arith)
                requires
                    0 <= rows_i + cols_i <= 20_000,
                    1 <= bs <= 10_000,
            ;
        }
        (rows_i + cols_i) * bs * FP
    };

    proof {
        if hit && dir_x == 0 && dir_y == FP {
            vstd::arithmetic::div_mod::lemma_fundamental_div_mod(map_fp_y as int, FP as int);
            vstd::arithmetic::div_mod::lemma_mod_division_less_than_divisor(
                map_fp_y as int,
                FP as int,
            );
            vstd::arithmetic::div_mod::lemma_remainder_lower(map_fp_y as int, FP as int);
            assert(side == 1 && ady == FP && step_y == 1);
            assert(map_y == start_cy + iter && iter >= 1);
            assert(map_fp_y == FP * start_cy + map_fp_y % FP && 0 <= map_fp_y % FP < FP);
            assert(map_y * FP - map_fp_y >= 0);
            assert((map_y as int * FP - map_fp_y) * bs * FP == FP as int * ((map_y as int * FP
                - map_fp_y) * bs)) by (nonlinear_arith);
            vstd::arithmetic::div_mod::lemma_div_multiples_vanish(
                (map_y as int * FP - map_fp_y) * bs,
                FP as int,
            );
            assert(dist_world == (map_y * FP - map_fp_y) * bs);
        }
    }
    proof {
        assert(0 <= adx * dist_world <= 1024 * 30_000_000_000_000 && 0 <= ady * dist_world <= 1024
            * 30_000_000_000_000) by (nonlinear_arith)
            requires
                0 <= adx <= 1024,
                0 <= ady <= 1024,
                0 <= dist_world <= 30_000_000_000_000,
        ;
    }
    let mx: i64 = adx * dist_world / FP;
    let my: i64 = ady * dist_world / FP;
    let hit_x: i64 = if dir_x < 0 {
        px - mx
    } else {
        px + mx
    };
    let hit_y: i64 = if dir_y < 0 {
        py - my
    } else {
        py + my
    };

    let ci: usize = if map_x < 0 {
        0
    } else if map_x >= cols_i {
        maze.cols() - 1
    } else {
        map_x as usize
    };
    let cj: usize = if map_y < 0 {
        0
    } else if map_y >= rows_i {
        maze.rows() - 1
    } else {
        map_y as usize
    };
    let impact: char = maze.read(cj, ci);

    Intersect { distance: dist_world, impact, hit_x, hit_y, cell_i: ci, cell_j: cj, hit, side }
}

/// The coordinate of a point advanced from `origin` along a fixed-point
/// direction component by a fixed-point distance.
pub open spec fn spec_ray_point(origin: int, dir: int, dist: int) -> int {
    if dir < 0 {
        origin - (-dir) * dist / (FP as int)
    } else {
        origin + dir * dist / (FP as int)
    }
}

/// Division of a bounded non-negative number by a positive one stays in
/// [0, numerator].
proof fn lemma_div_range(num: int, d: int)
    requires
        0 <= num,
    ensures
        1 <= d ==> 0 <= num / d <= num,
        0 < d <= num ==> 1 <= num / d,
{
    if 1 <= d {
        vstd::arithmetic::div_mod::lemma_div_pos_is_pos(num, d);
        vstd::arithmetic::div_mod::lemma_div_nonincreasing(num, d);
    }
    if 0 < d <= num {
        vstd::arithmetic::div_mod::lemma_div_non_zero(num, d);
    }
}

/// A non-negative quotient.
proof fn lemma_div_nonneg(num: int, d: int)
    requires
        0 <= num,
        1 <= d,
    ensures
        0 <= num / d,
{
    vstd::arithmetic::div_mod::lemma_div_pos_is_pos(num, d);
}

/// `a * delta / FP <= delta` for a fraction `a` of at most `FP`.
proof fn lemma_scaled_le(a: int, delta: int)
    requires
        0 <= a <= FP,
        0 <= delta,
    ensures
        0 <= a * delta / (FP as int) <= delta,
{
    vstd::arithmetic::mul::lemma_mul_inequality(a, FP as int, delta);
    vstd::arithmetic::div_mod::lemma_div_is_ordered(a * delta, (FP as int) * delta, FP as int);
    vstd::arithmetic::div_mod::lemma_div_multiples_vanish(delta, FP as int);
    vstd::arithmetic::mul::lemma_mul_nonnegative(a, delta);
    vstd::arithmetic::div_mod::lemma_div_pos_is_pos(a * delta, FP as int);
}

} // verus!
