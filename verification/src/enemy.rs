use vstd::prelude::*;

verus! {

use crate::caster::FP;
use crate::geom::{isqrt, dist_squared, spec_sqrt};
use crate::maze::{Maze, is_walkable};
use crate::path::{bfs_path, in_bounds, cell_at, adjacent, is_path, reachable};

/// A route fragment the enemy follows: in-bounds cells, one 4-neighbor
/// step apart, every cell after the first walkable.
pub open spec fn route_ok(m: Maze, s: Seq<(usize, usize)>) -> bool {
    &&& forall|i: int| 0 <= i < s.len() ==> in_bounds(m, #[trigger] s[i])
    &&& forall|i: int| 1 <= i < s.len() ==> adjacent(s[i - 1], #[trigger] s[i])
    &&& forall|i: int| 1 <= i < s.len() ==> is_walkable(cell_at(m, #[trigger] s[i]))
}

/// The fixed-point center of a grid cell.
pub open spec fn cell_center(c: int, block_size: int) -> int {
    c * block_size * (FP as int) + block_size * (FP as int) / 2
}

/// The grid cell index a world coordinate falls in, clamped to `n - 1`.
pub open spec fn clamped_cell(pos: int, bs: int, n: int) -> int {
    vstd::math::min(pos / (FP as int) / bs, n - 1)
}

/// Squared Euclidean distance between two fixed-point points.
pub open spec fn dist2(ax: int, ay: int, bx: int, by: int) -> int {
    (ax - bx) * (ax - bx) + (ay - by) * (ay - by)
}

/// One chase movement toward a waypoint center: no move within one
/// world unit of it; otherwise each coordinate advances toward the
/// target by its share of the clamped step length, on magnitudes, as
/// the integer model computes it.
pub open spec fn chase_step(px: int, py: int, tx: int, ty: int, speed: int, dt: int) -> (int, int) {
    let dx = tx - px;
    let dy = ty - py;
    let dist = spec_sqrt((dx * dx + dy * dy) as nat) as int;
    if dist > FP {
        let step_raw = speed * dt / 1_000_000;
        let step = if step_raw < dist {
            step_raw
        } else {
            dist
        };
        let mx = (if dx < 0 {
            -dx
        } else {
            dx
        }) * step / dist;
        let my = (if dy < 0 {
            -dy
        } else {
            dy
        }) * step / dist;
        (
            (if dx < 0 {
                px - mx
            } else {
                px + mx
            }),
            (if dy < 0 {
                py - my
            } else {
                py + my
            }),
        )
    } else {
        (px, py)
    }
}

/// The fixed-point center coordinate of cell index `c`.
fn center_coord(c: usize, bs: i64) -> (r: i64)
    requires
        c <= 100000,
        1 <= bs <= 10000,
    ensures
        r == cell_center(c as int, bs as int),
        0 <= r <= 1_024_010_240_000,
{
    proof {
        assert(0 <= c as int * bs * 1024 <= 100000int * 10000 * 1024) by (nonlinear_arith)
            requires
                0 <= c <= 100000,
                1 <= bs <= 10000,
        ;
    }
    (c as i64) * bs * FP + bs * FP / 2
}

/// An enemy: spawn cell, continuous position, speed, its current
/// breadth-first path toward the player, and its timers.
///
/// Positions are fixed-point world units; `speed` is fixed-point world
/// units per second; the timers are microseconds and may run negative
/// between resets, as the countdown subtracts before testing.
pub struct Enemy {
    pub spawn_cell: (usize, usize),
    pub pos_x: i64,
    pub pos_y: i64,
    pub tex_index: usize,
    pub speed: i64,
    pub path: Vec<(usize, usize)>,
    pub path_timer: i64,
    pub attack_cooldown: i64,
}

impl Enemy {
    pub fn new(spawn_cell: (usize, usize), block_size: usize, tex_index: usize, speed: i64) -> (e:
        Enemy)
        requires
            spawn_cell.0 <= 100000,
            spawn_cell.1 <= 100000,
            1 <= block_size <= 10000,
        ensures
            e.spawn_cell == spawn_cell,
            e.pos_x == cell_center(spawn_cell.0 as int, block_size as int),
            e.pos_y == cell_center(spawn_cell.1 as int, block_size as int),
            e.tex_index == tex_index,
            e.speed == speed,
            e.path@.len() == 0,
            e.path_timer == 0,
            e.attack_cooldown == 0,
    {
        let bs: i64 = block_size as i64;
        let cx: i64 = center_coord(spawn_cell.0, bs);
        let cy: i64 = center_coord(spawn_cell.1, bs);
        Enemy {
            spawn_cell,
            pos_x: cx,
            pos_y: cy,
            tex_index,
            speed,
            path: Vec::new(),
            path_timer: 0,
            attack_cooldown: 0,
        }
    }

    /// Teleport back to the spawn cell and forget the current path:
    /// the enemy resets rather than being removed.
    pub fn reset_to_spawn(&mut self, block_size: usize)
        requires
            old(self).spawn_cell.0 <= 100000,
            old(self).spawn_cell.1 <= 100000,
            1 <= block_size <= 10000,
        ensures
            final(self).pos_x == cell_center(old(self).spawn_cell.0 as int, block_size as int),
            final(self).pos_y == cell_center(old(self).spawn_cell.1 as int, block_size as int),
            final(self).path@.len() == 0,
            final(self).path_timer == 0,
            final(self).spawn_cell == old(self).spawn_cell,
            final(self).speed == old(self).speed,
            final(self).tex_index == old(self).tex_index,
            final(self).attack_cooldown == old(self).attack_cooldown,
    {
        let bs: i64 = block_size as i64;
        self.pos_x = center_coord(self.spawn_cell.0, bs);
        self.pos_y = center_coord(self.spawn_cell.1, bs);
        self.path = Vec::new();
        self.path_timer = 0;
    }

    /// The grid cell the enemy currently occupies, clamped into the
    /// maze.
    pub fn current_cell(&self, block_size: usize, maze: &Maze) -> (c: (usize, usize))
        requires
            maze.wf(),
            1 <= maze.rows <= 10000,
            1 <= maze.cols <= 10000,
            1 <= block_size <= 10000,
            0 <= self.pos_x <= 2_000_000_000,
            0 <= self.pos_y <= 2_000_000_000,
        ensures
            c.0 == vstd::math::min(
                self.pos_x as int / (FP as int) / block_size as int,
                maze.cols - 1,
            ),
            c.1 == vstd::math::min(
                self.pos_y as int / (FP as int) / block_size as int,
                maze.rows - 1,
            ),
            in_bounds(*maze, c),
    {
        let bs: i64 = block_size as i64;
        let cx_i: i64 = self.pos_x / FP / bs;
        let cy_i: i64 = self.pos_y / FP / bs;
        let cols: usize = maze.cols();
        let rows: usize = maze.rows();
        let cx: usize = if cx_i >= cols as i64 - 1 {
            cols - 1
        } else {
            cx_i as usize
        };
        let cy: usize = if cy_i >= rows as i64 - 1 {
            rows - 1
        } else {
            cy_i as usize
        };
        (cx, cy)
    }

    /// One simulation tick: count the timers down, recompute the
    /// breadth-first path toward the player when stale or empty, move
    /// toward the next waypoint at fixed speed, and attack when close
    /// with the cooldown elapsed. An attack teleports the enemy back to
    /// its spawn and rearms the cooldown; the return value signals the
    /// hit to the caller.
    #[verifier::rlimit(100)]
    pub fn update(
        &mut self,
        maze: &Maze,
        block_size: usize,
        player_x: i64,
        player_y: i64,
        dt_us: u32,
    ) -> (attacked: bool)
        requires
            maze.wf(),
            1 <= maze.rows <= 10000,
            1 <= maze.cols <= 10000,
            1 <= block_size <= 10000,
            maze.rows * block_size <= 1_000_000,
            maze.cols * block_size <= 1_000_000,
            0 <= old(self).pos_x <= 1_024_000_000,
            0 <= old(self).pos_y <= 1_024_000_000,
            0 <= player_x <= 1_024_000_000,
            0 <= player_y <= 1_024_000_000,
            0 <= old(self).speed <= 10_240_000,
            old(self).spawn_cell.0 < maze.cols,
            old(self).spawn_cell.1 < maze.rows,
            -10_000_000 <= old(self).path_timer <= 10_000_000,
            -10_000_000 <= old(self).attack_cooldown <= 10_000_000,
            dt_us <= 1_000_000,
            route_ok(*maze, old(self).path@),
        ensures
            final(self).spawn_cell == old(self).spawn_cell,
            final(self).speed == old(self).speed,
            final(self).tex_index == old(self).tex_index,
            0 <= final(self).pos_x <= 1_024_000_000,
            0 <= final(self).pos_y <= 1_024_000_000,
            route_ok(*maze, final(self).path@),
            -10_000_000 <= final(self).path_timer <= 10_000_000,
            -10_000_000 <= final(self).attack_cooldown <= 10_000_000,
            attacked ==> {
                &&& final(self).pos_x == cell_center(
                    old(self).spawn_cell.0 as int,
                    block_size as int,
                )
                &&& final(self).pos_y == cell_center(
                    old(self).spawn_cell.1 as int,
                    block_size as int,
                )
                &&& final(self).path@.len() == 0
                &&& final(self).attack_cooldown == 1_000_000
            },
            attacked ==> (if old(self).attack_cooldown > 0 {
                old(self).attack_cooldown - dt_us
            } else {
                old(self).attack_cooldown as int
            }) <= 0,
            !attacked ==> final(self).attack_cooldown == (if old(self).attack_cooldown > 0 {
                old(self).attack_cooldown - dt_us
            } else {
                old(self).attack_cooldown as int
            }),
            attacked ==> final(self).path_timer == 0,
            ({
                let bs = block_size as int;
                let dt = dt_us as int;
                let cd1 = if old(self).attack_cooldown > 0 {
                    old(self).attack_cooldown - dt
                } else {
                    old(self).attack_cooldown as int
                };
                let stale = old(self).path_timer - dt <= 0 || old(self).path@.len() == 0;
                let myc = (
                    clamped_cell(old(self).pos_x as int, bs, maze.cols as int) as usize,
                    clamped_cell(old(self).pos_y as int, bs, maze.rows as int) as usize,
                );
                let pc = (
                    clamped_cell(player_x as int, bs, maze.cols as int) as usize,
                    clamped_cell(player_y as int, bs, maze.rows as int) as usize,
                );
                let radius = bs * (FP as int) / 2;
                // A stale or empty path is recomputed wholesale toward the
                // player's cell and the recompute timer rearmed; movement
                // along the fresh path stays within one step length.
                &&& (!attacked && stale ==> {
                    &&& final(self).path_timer == 1_000_000
                    &&& ({
                        let fp = final(self).path@;
                        &&& (fp.len() > 0 <==> reachable(*maze, myc, pc))
                        &&& (fp.len() > 0 ==> fp[fp.len() - 1] == pc)
                    })
                    &&& final(self).pos_x - old(self).pos_x <= old(self).speed * dt / 1_000_000
                    &&& old(self).pos_x - final(self).pos_x <= old(self).speed * dt / 1_000_000
                    &&& final(self).pos_y - old(self).pos_y <= old(self).speed * dt / 1_000_000
                    &&& old(self).pos_y - final(self).pos_y <= old(self).speed * dt / 1_000_000
                })
                // A fresh path is kept: the movement is exactly one chase
                // step toward the next waypoint, which is consumed once the
                // enemy is within one world unit of it.
                &&& (!stale && old(self).path@.len() >= 2 ==> {
                    let t0 = cell_center(old(self).path@[1].0 as int, bs);
                    let t1 = cell_center(old(self).path@[1].1 as int, bs);
                    let d = spec_sqrt(
                        dist2(old(self).pos_x as int, old(self).pos_y as int, t0, t1) as nat,
                    ) as int;
                    let np = chase_step(
                        old(self).pos_x as int,
                        old(self).pos_y as int,
                        t0,
                        t1,
                        old(self).speed as int,
                        dt,
                    );
                    &&& (attacked <==> (dist2(np.0, np.1, player_x as int, player_y as int)
                        < radius * radius && cd1 <= 0))
                    &&& (!attacked ==> {
                        &&& final(self).pos_x == np.0
                        &&& final(self).pos_y == np.1
                        &&& final(self).path_timer == old(self).path_timer - dt
                        &&& (d > FP ==> final(self).path@ == old(self).path@)
                        &&& (d <= FP ==> final(self).path@ == old(self).path@.subrange(
                            1,
                            old(self).path@.len() as int,
                        ))
                    })
                })
                &&& (!stale && old(self).path@.len() < 2 ==> {
                    &&& (attacked <==> (dist2(
                        old(self).pos_x as int,
                        old(self).pos_y as int,
                        player_x as int,
                        player_y as int,
                    ) < radius * radius && cd1 <= 0))
                    &&& (!attacked ==> final(self).pos_x == old(self).pos_x && final(self).pos_y
                        == old(self).pos_y && final(self).path@ == old(self).path@
                        && final(self).path_timer == old(self).path_timer - dt)
                })
            }),
    {
        let dt: i64 = dt_us as i64;
        let ghost was_stale = old(self).path_timer - dt_us <= 0 || old(self).path@.len() == 0;
        if self.attack_cooldown > 0 {
            self.attack_cooldown = self.attack_cooldown - dt;
        }
        self.path_timer = self.path_timer - dt;

        let bs: i64 = block_size as i64;
        let cols: usize = maze.cols();
        let rows: usize = maze.rows();
        let px_i: i64 = player_x / FP / bs;
        let py_i: i64 = player_y / FP / bs;
        let pcx: usize = if px_i >= cols as i64 - 1 {
            cols - 1
        } else {
            px_i as usize
        };
        let pcy: usize = if py_i >= rows as i64 - 1 {
            rows - 1
        } else {
            py_i as usize
        };
        let my_cell: (usize, usize) = self.current_cell(block_size, maze);
        proof {
            assert(pcx as int == clamped_cell(player_x as int, bs as int, maze.cols as int));
            assert(pcy as int == clamped_cell(player_y as int, bs as int, maze.rows as int));
            assert(my_cell.0 as int == clamped_cell(
                old(self).pos_x as int,
                bs as int,
                maze.cols as int,
            ));
            assert(my_cell.1 as int == clamped_cell(
                old(self).pos_y as int,
                bs as int,
                maze.rows as int,
            ));
        }

        if self.path_timer <= 0 || self.path.len() == 0 {
            proof {
                assert(was_stale);
            }
            self.path = bfs_path(maze, my_cell, (pcx, pcy));
            self.path_timer = 1_000_000;
            proof {
                if self.path@.len() > 0 {
                    assert(is_path(*maze, self.path@, my_cell, (pcx, pcy)));
                    assert(reachable(*maze, my_cell, (pcx, pcy)));
                } else {
                    assert(!reachable(*maze, my_cell, (pcx, pcy)));
                }
            }
        } else {
            proof {
                assert(!was_stale);
            }
        }
        let ghost mid = *self;

        if self.path.len() >= 2 {
            let next: (usize, usize) = self.path[1];
            proof {
                assert(in_bounds(*maze, self.path@[1]));
            }
            let target_x: i64 = center_coord(next.0, bs);
            let target_y: i64 = center_coord(next.1, bs);
            proof {
                lemma_center_in_world(next.0 as int, block_size as int, maze.cols as int);
                lemma_center_in_world(next.1 as int, block_size as int, maze.rows as int);
            }
            let dx: i64 = target_x - self.pos_x;
            let dy: i64 = target_y - self.pos_y;
            let d2: u64 = dist_squared(dx, dy);
            let dist: u64 = isqrt(d2);
            proof {
                assert(dist <= 4_294_967_295u64) by (nonlinear_arith)
                    requires
                        dist * dist <= 18_446_744_073_709_551_615u64,
                ;
                if !was_stale {
                    assert(d2 as int == dist2(
                        self.pos_x as int,
                        self.pos_y as int,
                        target_x as int,
                        target_y as int,
                    )) by (nonlinear_arith)
                        requires
                            d2 == dx * dx + dy * dy,
                            dx == target_x - self.pos_x,
                            dy == target_y - self.pos_y,
                            dist2(
                                self.pos_x as int,
                                self.pos_y as int,
                                target_x as int,
                                target_y as int,
                            ) == (self.pos_x - target_x) * (self.pos_x - target_x) + (self.pos_y
                                - target_y) * (self.pos_y - target_y),
                    ;
                    assert(dist as int == spec_sqrt(
                        dist2(
                            self.pos_x as int,
                            self.pos_y as int,
                            target_x as int,
                            target_y as int,
                        ) as nat,
                    ) as int);
                }
            }
            if dist > FP as u64 {
                proof {
                    lemma_component_le_dist(dx as int, dy as int, d2 as int, dist as int);
                    assert(0 <= target_x <= 1_024_000_000);
                    assert(0 <= target_y <= 1_024_000_000);
                }
                proof {
                    assert(0 <= self.speed * dt <= 10_240_000_000_000i64) by (nonlinear_arith)
                        requires
                            0 <= self.speed <= 10_240_000,
                            0 <= dt <= 1_000_000,
                    ;
                }
                let step_raw: i64 = self.speed * dt / 1_000_000;
                let step: i64 = if step_raw < dist as i64 {
                    step_raw
                } else {
                    dist as i64
                };
                let abs_dx: i64 = if dx < 0 {
                    -dx
                } else {
                    dx
                };
                let abs_dy: i64 = if dy < 0 {
                    -dy
                } else {
                    dy
                };
                proof {
                    lemma_move_bound(abs_dx as int, step as int, dist as int);
                    lemma_move_bound(abs_dy as int, step as int, dist as int);
                    assert(0 <= abs_dx * step <= 22_000_000_000_000_000i64 && 0 <= abs_dy * step
                        <= 22_000_000_000_000_000i64) by (nonlinear_arith)
                        requires
                            0 <= abs_dx <= 2_100_000_000,
                            0 <= abs_dy <= 2_100_000_000,
                            0 <= step <= 10_240_000,
                    ;
                }
                let mx: i64 = abs_dx * step / (dist as i64);
                let my: i64 = abs_dy * step / (dist as i64);
                if dx < 0 {
                    self.pos_x = self.pos_x - mx;
                } else {
                    self.pos_x = self.pos_x + mx;
                }
                if dy < 0 {
                    self.pos_y = self.pos_y - my;
                } else {
                    self.pos_y = self.pos_y + my;
                }
                proof {
                    assert(0 <= self.pos_x <= 1_024_000_000);
                    assert(0 <= self.pos_y <= 1_024_000_000);
                }
            } else {
                let _ = self.path.remove(0);
                proof {
                    if !was_stale {
                        assert(self.path@ =~= old(self).path@.subrange(
                            1,
                            old(self).path@.len() as int,
                        ));
                    }
                }
            }
        }
        proof {
            if !was_stale {
                assert(mid.path@ == old(self).path@);
                if old(self).path@.len() >= 2 {
                    let t0 = cell_center(old(self).path@[1].0 as int, bs as int);
                    let t1 = cell_center(old(self).path@[1].1 as int, bs as int);
                    let np = chase_step(
                        old(self).pos_x as int,
                        old(self).pos_y as int,
                        t0,
                        t1,
                        old(self).speed as int,
                        dt as int,
                    );
                    assert(self.pos_x == np.0 && self.pos_y == np.1);
                }
            }
        }

        let dxp: i64 = player_x - self.pos_x;
        let dyp: i64 = player_y - self.pos_y;
        let d2p: u64 = dist_squared(dxp, dyp);
        let radius: i64 = bs * FP / 2;
        proof {
            assert(radius * radius <= 5_120_000 * 5_120_000 && radius * radius >= 0)
                by (nonlinear_arith)
                requires
                    0 <= radius <= 5_120_000,
            ;
        }
        proof {
            assert(d2p as int == dist2(
                self.pos_x as int,
                self.pos_y as int,
                player_x as int,
                player_y as int,
            )) by (nonlinear_arith)
                requires
                    d2p == dxp * dxp + dyp * dyp,
                    dxp == player_x - self.pos_x,
                    dyp == player_y - self.pos_y,
                    dist2(
                        self.pos_x as int,
                        self.pos_y as int,
                        player_x as int,
                        player_y as int,
                    ) == (self.pos_x - player_x) * (self.pos_x - player_x) + (self.pos_y - player_y)
                        * (self.pos_y - player_y),
            ;
        }
        if d2p < (radius * radius) as u64 && self.attack_cooldown <= 0 {
            self.attack_cooldown = 1_000_000;
            self.reset_to_spawn(block_size);
            proof {
                lemma_center_in_world(self.spawn_cell.0 as int, block_size as int, maze.cols as int);
                lemma_center_in_world(self.spawn_cell.1 as int, block_size as int, maze.rows as int);
            }
            return true;
        }

        false
    }
}

/// A cell center lies inside the world extent.
pub(crate) proof fn lemma_center_in_world(c: int, bs: int, n: int)
    requires
        0 <= c < n,
        1 <= bs,
        n * bs <= 1_000_000,
    ensures
        0 <= cell_center(c, bs) <= 1_024_000_000,
{
    assert((c + 1) * bs <= n * bs) by (nonlinear_arith)
        requires
            c + 1 <= n,
            1 <= bs,
    ;
    assert(0 <= c * bs * 1024 && c * bs * 1024 + bs * 1024 <= 1_024_000_000) by (nonlinear_arith)
        requires
            0 <= c,
            1 <= bs,
            (c + 1) * bs <= 1_000_000,
    ;
    assert(bs * 1024 / 2 <= bs * 1024);
}

/// Each coordinate offset is bounded by the Euclidean distance.
proof fn lemma_component_le_dist(dx: int, dy: int, d2: int, dist: int)
    requires
        d2 == dx * dx + dy * dy,
        0 <= dist,
        dist * dist <= d2,
        d2 < (dist + 1) * (dist + 1),
    ensures
        -dist <= dx <= dist,
        -dist <= dy <= dist,
{
    assert(-dist <= dx <= dist && -dist <= dy <= dist) by (nonlinear_arith)
        requires
            d2 == dx * dx + dy * dy,
            0 <= dist,
            dist * dist <= d2,
            d2 < (dist + 1) * (dist + 1),
    ;
}

/// One movement component magnitude, `a * step / dist`, never exceeds
/// the full offset magnitude `a`, nor the step length.
proof fn lemma_move_bound(a: int, step: int, dist: int)
    requires
        0 <= a <= dist,
        0 <= step <= dist,
        1 <= dist,
    ensures
        0 <= a * step / dist <= a,
        a * step / dist <= step,
{
    assert(0 <= a * step / dist <= a && a * step / dist <= step) by (nonlinear_arith)
        requires
            0 <= a <= dist,
            0 <= step <= dist,
            1 <= dist,
    ;
}

} // verus!
