use vstd::prelude::*;

verus! {

use vstd::math::min;
use crate::caster::FP;
use crate::enemy::{Enemy, route_ok};
use crate::fog::Fog;
use crate::geom::{isqrt, dist_squared, PI_URAD};
use crate::maze::{Maze, is_walkable};
use crate::path::in_bounds;
use crate::player::Player;

/// The simulation runs on a fixed timestep of 1/60 second.
pub const FIXED_DT_US: u64 = 16_667;

/// A frame delta above this bound is clamped, so a long stall cannot
/// trigger runaway catch-up stepping.
pub const MAX_FRAME_US: u64 = 250_000;

/// The game phases. `volume` is in permille of full volume.
pub enum AppState {
    Menu { selected: usize },
    SoundMenu { volume: u32, previous_selected: usize },
    Playing,
    Victory,
    GameOver,
    Exiting,
}

/// Notifications the simulation hands to the caller, which turns them
/// into on-screen text and sound effects.
pub enum GameEvent {
    Starting,
    KeyHint,
    EnemyHit,
    MedkitTaken,
    KeyTaken,
    BinocularsTaken,
    DoorOpened,
    NeedKey,
    Won,
    Died,
}

/// Clamp a frame delta to the catch-up bound.
pub fn clamp_frame_delta(dt_us: u64) -> (r: u64)
    ensures
        r == min(dt_us as int, MAX_FRAME_US as int),
{
    if dt_us > MAX_FRAME_US {
        MAX_FRAME_US
    } else {
        dt_us
    }
}

/// Add a clamped frame delta to the simulation accumulator.
pub fn accumulate(acc_us: u64, frame_us: u64) -> (r: u64)
    requires
        acc_us <= 1_000_000,
    ensures
        r == acc_us + min(frame_us as int, MAX_FRAME_US as int),
        r <= 1_250_000,
{
    acc_us + clamp_frame_delta(frame_us)
}


/// The effective volume of a sound effect: the clip volume scaled by
/// the master effect volume, both clamped into [0, 1000] permille.
pub fn sfx_final_volume(vol: u32, master: u32) -> (r: u32)
    ensures
        r == min(vol as int, 1000) * min(master as int, 1000) / 1000,
        r <= 1000,
{
    let v: u32 = if vol > 1000 {
        1000
    } else {
        vol
    };
    let m: u32 = if master > 1000 {
        1000
    } else {
        master
    };
    proof {
        assert(v * m <= 1000 * 1000 && v * m >= 0) by (nonlinear_arith)
            requires
                v <= 1000,
                m <= 1000,
        ;
    }
    v * m / 1000
}

/// One menu frame: down and up move the selection cyclically through
/// the three entries, and enter either requests a new game (first
/// entry), opens the sound menu (second), or exits (third).
pub fn menu_frame(
    selected: usize,
    up_pressed: bool,
    down_pressed: bool,
    enter_pressed: bool,
    music_volume: u32,
) -> (r: (AppState, bool))
    requires
        selected < 3,
    ensures
        ({
            let s1 = if down_pressed {
                ((selected + 1) % 3) as int
            } else {
                selected as int
            };
            let s2 = if up_pressed {
                if s1 == 0 {
                    2int
                } else {
                    s1 - 1
                }
            } else {
                s1
            };
            &&& 0 <= s2 < 3
            &&& (enter_pressed && s2 == 1 ==> r.0 == (AppState::SoundMenu {
                volume: music_volume,
                previous_selected: s2 as usize,
            }) && !r.1)
            &&& (enter_pressed && s2 == 2 ==> r.0 == AppState::Exiting && !r.1)
            &&& (enter_pressed && s2 == 0 ==> r.0 == (AppState::Menu { selected: s2 as usize })
                && r.1)
            &&& (!enter_pressed ==> r.0 == (AppState::Menu { selected: s2 as usize }) && !r.1)
        }),
{
    let mut sel: usize = selected;
    if down_pressed {
        sel = (sel + 1) % 3;
    }
    if up_pressed {
        if sel == 0 {
            sel = 2;
        } else {
            sel = sel - 1;
        }
    }
    if enter_pressed {
        if sel == 1 {
            (AppState::SoundMenu { volume: music_volume, previous_selected: sel }, false)
        } else if sel == 2 {
            (AppState::Exiting, false)
        } else {
            (AppState::Menu { selected: sel }, true)
        }
    } else {
        (AppState::Menu { selected: sel }, false)
    }
}

/// One sound-menu frame: holding left or right slides the volume at
/// 0.6 of full volume per second, clamped to [0, 1000] permille;
/// enter returns to the menu with the previous selection.
pub fn sound_menu_frame(
    volume: u32,
    previous_selected: usize,
    left_down: bool,
    right_down: bool,
    enter_pressed: bool,
    dt_us: u32,
) -> (r: (AppState, u32))
    requires
        volume <= 1000,
        previous_selected < 3,
        dt_us <= 1_000_000,
    ensures
        r.1 <= 1000,
        ({
            let delta = 600 * dt_us as int / 1_000_000;
            let v1 = if left_down {
                if volume >= delta {
                    volume - delta
                } else {
                    0int
                }
            } else {
                volume as int
            };
            let v2 = if right_down {
                if v1 + delta <= 1000 {
                    v1 + delta
                } else {
                    1000int
                }
            } else {
                v1
            };
            &&& r.1 == v2
            &&& (enter_pressed ==> r.0 == (AppState::Menu { selected: previous_selected }))
            &&& (!enter_pressed ==> r.0 == (AppState::SoundMenu {
                volume: r.1,
                previous_selected,
            }))
        }),
{
    let mut vol: u32 = volume;
    let delta: u32 = 600 * dt_us / 1_000_000;
    if left_down {
        if vol >= delta {
            vol = vol - delta;
        } else {
            vol = 0;
        }
    }
    if right_down {
        if vol + delta <= 1000 {
            vol = vol + delta;
        } else {
            vol = 1000;
        }
    }
    if enter_pressed {
        (AppState::Menu { selected: previous_selected }, vol)
    } else {
        (AppState::SoundMenu { volume: vol, previous_selected }, vol)
    }
}

/// The victory and game-over screens return to the menu on confirm.
pub fn end_screen_frame(enter_pressed: bool, current: AppState) -> (r: AppState)
    requires
        current is Victory || current is GameOver,
    ensures
        enter_pressed ==> r == (AppState::Menu { selected: 0 }),
        !enter_pressed ==> r == current,
{
    if enter_pressed {
        AppState::Menu { selected: 0 }
    } else {
        current
    }
}

/// A pickup lying in a maze cell; the flag flips when the player takes
/// it, the entry itself is never removed.
#[derive(Clone, Copy)]
pub struct Pickup {
    pub cell: (usize, usize),
    pub taken: bool,
}

/// The one long-lived mutable game aggregate, threaded explicitly
/// through every subsystem call.
pub struct World {
    pub maze: Maze,
    pub block_size: usize,
    pub player: Player,
    pub enemies: Vec<Enemy>,
    pub medkits: Vec<Pickup>,
    pub keys: Vec<Pickup>,
    pub bins: Vec<Pickup>,
    pub fog: Fog,
    pub goal_unlocked: bool,
}

/// An enemy consistent with the world it lives in.
pub open spec fn enemy_ok(m: Maze, e: Enemy) -> bool {
    &&& 0 <= e.pos_x <= 1_024_000_000
    &&& 0 <= e.pos_y <= 1_024_000_000
    &&& e.spawn_cell.0 < m.cols
    &&& e.spawn_cell.1 < m.rows
    &&& 0 <= e.speed <= 10_240_000
    &&& -10_000_000 <= e.path_timer <= 10_000_000
    &&& -10_000_000 <= e.attack_cooldown <= 10_000_000
    &&& route_ok(m, e.path@)
}

impl World {
    /// Well-formedness of the whole aggregate: a bounded maze, the
    /// player and every entity inside it, and a fog grid of matching
    /// dimensions.
    pub open spec fn wf(self) -> bool {
        &&& self.maze.wf()
        &&& 1 <= self.maze.rows <= 10000
        &&& 1 <= self.maze.cols <= 10000
        &&& 1 <= self.block_size <= 10000
        &&& self.maze.rows * self.block_size <= 1_000_000
        &&& self.maze.cols * self.block_size <= 1_000_000
        &&& self.player.wf()
        &&& 0 <= self.player.pos_x < self.maze.cols * self.block_size * (FP as int)
        &&& 0 <= self.player.pos_y < self.maze.rows * self.block_size * (FP as int)
        &&& self.fog.wf()
        &&& self.fog.rows == self.maze.rows
        &&& self.fog.cols == self.maze.cols
        &&& forall|i: int| 0 <= i < self.enemies@.len() ==> enemy_ok(self.maze, #[trigger] self.enemies@[i])
        &&& forall|i: int| 0 <= i < self.medkits@.len() ==> in_bounds(self.maze, (#[trigger] self.medkits@[i]).cell)
        &&& forall|i: int| 0 <= i < self.keys@.len() ==> in_bounds(self.maze, (#[trigger] self.keys@[i]).cell)
        &&& forall|i: int| 0 <= i < self.bins@.len() ==> in_bounds(self.maze, (#[trigger] self.bins@[i]).cell)
    }

    /// The grid cell the player stands in.
    pub open spec fn player_cell(self) -> (usize, usize) {
        (
            (self.player.pos_x as int / (FP as int) / self.block_size as int) as usize,
            (self.player.pos_y as int / (FP as int) / self.block_size as int) as usize,
        )
    }
}

/// A position inside the world extent maps to a cell inside the grid.
pub proof fn lemma_pos_cell_in_grid(pos: int, bs: int, n: int)
    requires
        1 <= bs,
        1 <= n,
        0 <= pos < n * bs * (FP as int),
    ensures
        0 <= pos / (FP as int) / bs < n,
{
    vstd::arithmetic::div_mod::lemma_div_pos_is_pos(pos, FP as int);
    vstd::arithmetic::div_mod::lemma_div_pos_is_pos(pos / (FP as int), bs);
    vstd::arithmetic::div_mod::lemma_fundamental_div_mod(pos, 1024);
    vstd::arithmetic::div_mod::lemma_fundamental_div_mod(pos / 1024, bs);
    vstd::arithmetic::div_mod::lemma_mod_division_less_than_divisor(pos, 1024);
    vstd::arithmetic::div_mod::lemma_mod_division_less_than_divisor(pos / 1024, bs);
    vstd::arithmetic::div_mod::lemma_remainder_lower(pos, 1024);
    vstd::arithmetic::div_mod::lemma_remainder_lower(pos / 1024, bs);
    assert(pos / 1024 / bs < n) by (nonlinear_arith)
        requires
            1 <= bs,
            1 <= n,
            0 <= pos < n * bs * 1024,
            0 <= pos / 1024,
            pos == 1024 * (pos / 1024) + pos % 1024,
            0 <= pos % 1024 < 1024,
            pos / 1024 == bs * (pos / 1024 / bs) + (pos / 1024) % bs,
            0 <= (pos / 1024) % bs < bs,
    ;
    assert(pos / (FP as int) / bs < n);
}

/// A cell index inside the grid bounds the position that mapped to it.
pub proof fn lemma_cell_pos_bound(pos: int, bs: int, n: int)
    requires
        1 <= bs,
        1 <= n,
        0 <= pos,
        pos / (FP as int) / bs < n,
    ensures
        pos < n * bs * (FP as int),
{
    vstd::arithmetic::div_mod::lemma_fundamental_div_mod(pos, 1024);
    vstd::arithmetic::div_mod::lemma_fundamental_div_mod(pos / 1024, bs);
    vstd::arithmetic::div_mod::lemma_mod_division_less_than_divisor(pos, 1024);
    vstd::arithmetic::div_mod::lemma_mod_division_less_than_divisor(pos / 1024, bs);
    vstd::arithmetic::div_mod::lemma_remainder_lower(pos, 1024);
    vstd::arithmetic::div_mod::lemma_remainder_lower(pos / 1024, bs);
    vstd::arithmetic::div_mod::lemma_div_pos_is_pos(pos, 1024);
    assert(pos < n * bs * 1024) by (nonlinear_arith)
        requires
            1 <= bs,
            1 <= n,
            0 <= pos,
            0 <= pos / 1024,
            pos / 1024 / bs <= n - 1,
            pos == 1024 * (pos / 1024) + pos % 1024,
            0 <= pos % 1024 < 1024,
            pos / 1024 == bs * (pos / 1024 / bs) + (pos / 1024) % bs,
            0 <= (pos / 1024) % bs < bs,
    ;
}

/// The maze after a step differs from the one before at most by locked
/// doors that were opened.
pub open spec fn doors_only_opened(m1: Maze, m2: Maze) -> bool {
    &&& m2.rows == m1.rows
    &&& m2.cols == m1.cols
    &&& m2.wf()
    &&& forall|y: int, x: int|
        0 <= y < m1.rows && 0 <= x < m1.cols ==> #[trigger] m2.at(y, x) == m1.at(y, x) || (m1.at(
            y,
            x,
        ) == 'D' && m2.at(y, x) == ' ')
}

/// Opening doors never invalidates a route: it only widens the walkable
/// set.
pub proof fn lemma_route_ok_after_doors(m1: Maze, m2: Maze, s: Seq<(usize, usize)>)
    requires
        doors_only_opened(m1, m2),
        route_ok(m1, s),
    ensures
        route_ok(m2, s),
{
    assert forall|i: int| 0 <= i < s.len() implies in_bounds(m2, #[trigger] s[i]) by {
        assert(in_bounds(m1, s[i]));
    }
    assert forall|i: int| 1 <= i < s.len() implies is_walkable(
        crate::path::cell_at(m2, #[trigger] s[i]),
    ) by {
        assert(is_walkable(crate::path::cell_at(m1, s[i])));
        assert(in_bounds(m1, s[i]));
    }
}

/// Rotate the player's facing by the held keys: pi radians per second
/// left or right, with the result normalized back into (-pi, pi]:
/// the angle keeps its value modulo a full turn, and the boundary is
/// represented as pi, never as minus pi.
pub fn rotate_player(player: &mut Player, left_down: bool, right_down: bool, dt_us: u32)
    requires
        -4_000_000 <= old(player).angle <= 4_000_000,
        dt_us <= 1_000_000,
    ensures
        -PI_URAD < final(player).angle <= PI_URAD,
        *final(player) == (Player { angle: final(player).angle, ..*old(player) }),
        ({
            let delta = (if right_down {
                (PI_URAD as int) * dt_us / 1_000_000
            } else {
                0int
            }) - (if left_down {
                (PI_URAD as int) * dt_us / 1_000_000
            } else {
                0int
            });
            exists|k: int|
                final(player).angle == old(player).angle + delta + #[trigger] (k * 2 * (
                PI_URAD as int))
        }),
{
    let rot: i64 = PI_URAD * (dt_us as i64) / 1_000_000;
    proof {
        assert(0 <= PI_URAD * (dt_us as i64) <= 3_141_593_000_000i64) by (nonlinear_arith)
            requires
                0 <= dt_us <= 1_000_000,
        ;
    }
    let mut a: i64 = player.angle;
    if left_down {
        a = a - rot;
    }
    if right_down {
        a = a + rot;
    }
    let ghost a0 = a as int;
    let ghost mut turns: int = 0;
    while a > PI_URAD
        invariant
            a as int == a0 + turns * 2 * (PI_URAD as int),
            a >= -PI_URAD - 2 * PI_URAD,
        decreases a + PI_URAD,
    {
        a = a - 2 * PI_URAD;
        proof {
            turns = turns - 1;
        }
    }
    while a < -PI_URAD
        invariant
            a as int == a0 + turns * 2 * (PI_URAD as int),
            a <= PI_URAD,
        decreases PI_URAD - a,
    {
        a = a + 2 * PI_URAD;
        proof {
            turns = turns + 1;
        }
    }
    if a == -PI_URAD {
        a = PI_URAD;
        proof {
            turns = turns + 1;
        }
    }
    player.angle = a;
    proof {
        let k = turns;
        assert(player.angle == old(player).angle + (a0 - old(player).angle) + k * 2 * (
        PI_URAD as int));
    }
}



/// The run-adjusted movement speed for one input frame, in world units
/// per second: holding shift with stamina above five points runs at
/// 128, dropping to 64 once the drained stamina is at or below ten
/// points; walking moves at 80.
pub open spec fn spec_move_speed(shift: bool, stamina: u32, dtc: int) -> int {
    if shift && stamina > 5_000_000 {
        if vstd::math::max(stamina - 60 * dtc, 0) <= 10_000_000 {
            64
        } else {
            128
        }
    } else {
        80
    }
}

/// The wanted displacement along one axis for one frame, fixed point:
/// forward and backward contributions of direction times speed times
/// the clamped frame time.
pub open spec fn spec_want(dir: int, speed: int, dtc: int, up: bool, down: bool) -> int {
    let mag = (if dir < 0 {
        -dir
    } else {
        dir
    }) * speed * dtc / 1_000_000;
    let f = if dir < 0 {
        -mag
    } else {
        mag
    };
    (if up {
        f
    } else {
        0int
    }) - (if down {
        f
    } else {
        0int
    })
}

/// How many collision sub-steps the wanted displacement is split into:
/// enough that each is at most a quarter cell, and at least one.
pub open spec fn spec_substeps(total: int, bs: int) -> int {
    let raw = (total + bs * (FP as int) / 4 - 1) / (bs * (FP as int) / 4);
    if raw == 0 {
        1int
    } else {
        raw
    }
}

/// A sub-step target the walk cannot enter: outside the grid, or a
/// cell neither traversable nor a door openable with the held key.
pub open spec fn move_blocked(m: Maze, bs: int, x: int, y: int, has_key: bool) -> bool {
    ||| x < 0
    ||| y < 0
    ||| x / (FP as int) / bs >= m.cols
    ||| y / (FP as int) / bs >= m.rows
    ||| (!is_walkable(m.at(y / (FP as int) / bs, x / (FP as int) / bs)) && !(m.at(
        y / (FP as int) / bs,
        x / (FP as int) / bs,
    ) == 'D' && has_key))
}

/// Some maze cell held a locked door and is now open.
pub open spec fn some_door_opened(m1: Maze, m2: Maze) -> bool {
    exists|y: int, x: int|
        0 <= y < m1.rows && 0 <= x < m1.cols && m1.at(y, x) == 'D' && #[trigger] m2.at(y, x) == ' '
}

/// A 4-neighbor of cell (y, x) holds the goal marker.
pub open spec fn goal_beside(m: Maze, y: int, x: int) -> bool {
    ||| (y + 1 < m.rows && m.at(y + 1, x) == 'g')
    ||| (y - 1 >= 0 && m.at(y - 1, x) == 'g')
    ||| (x + 1 < m.cols && m.at(y, x + 1) == 'g')
    ||| (x - 1 >= 0 && m.at(y, x - 1) == 'g')
}

/// Some maze cell held a locked door, is now open, and sits beside the
/// goal.
pub open spec fn opened_door_guards_goal(m1: Maze, m2: Maze) -> bool {
    exists|y: int, x: int|
        0 <= y < m1.rows && 0 <= x < m1.cols && m1.at(y, x) == 'D' && #[trigger] m2.at(y, x) == ' '
            && goal_beside(m2, y, x)
}



/// Walk the wanted displacement in collision sub-steps: commit open
/// sub-steps, open a locked door when the key is held, stop at
/// anything else. Returns the door event and, as a ghost value, how
/// many sub-steps were committed.
#[verifier::rlimit(100)]
#[verifier::spinoff_prover]
pub fn walk_substeps(w: &mut World, want_x: i64, want_y: i64, total: u64) -> (r: (
    Option<GameEvent>,
    Ghost<int>,
))
    requires
        old(w).wf(),
        1 <= total <= 200_000,
        -131_072 <= want_x <= 131_072,
        -131_072 <= want_y <= 131_072,
    ensures
        final(w).wf(),
        final(w).block_size == old(w).block_size,
        doors_only_opened(old(w).maze, final(w).maze),
        final(w).enemies == old(w).enemies,
        final(w).medkits == old(w).medkits,
        final(w).keys == old(w).keys,
        final(w).bins == old(w).bins,
        final(w).fog == old(w).fog,
        final(w).player == (Player {
            pos_x: final(w).player.pos_x,
            pos_y: final(w).player.pos_y,
            has_key: final(w).player.has_key,
            ..old(w).player
        }),
        final(w).player.has_key == (old(w).player.has_key && r.0 is None),
        r.0 is Some ==> r.0 == Some(GameEvent::DoorOpened) && old(w).player.has_key,
        (r.0 is Some) <==> some_door_opened(old(w).maze, final(w).maze),
        final(w).goal_unlocked == (old(w).goal_unlocked || opened_door_guards_goal(
            old(w).maze,
            final(w).maze,
        )),
        is_walkable(crate::path::cell_at(old(w).maze, old(w).player_cell())) ==> is_walkable(
            crate::path::cell_at(final(w).maze, final(w).player_cell()),
        ),
        ({
            let bs = old(w).block_size as int;
            let steps = spec_substeps(total as int, bs);
            let mx = (if want_x < 0 {
                -(want_x as int)
            } else {
                want_x as int
            }) / steps;
            let my = (if want_y < 0 {
                -(want_y as int)
            } else {
                want_y as int
            }) / steps;
            &&& 0 <= r.1@ <= steps
            &&& final(w).player.pos_x == old(w).player.pos_x + (if want_x < 0 {
                -(#[trigger] (r.1@ * mx))
            } else {
                r.1@ * mx
            })
            &&& final(w).player.pos_y == old(w).player.pos_y + (if want_y < 0 {
                -(r.1@ * my)
            } else {
                r.1@ * my
            })
            &&& (r.1@ + (if r.0 is Some {
                1int
            } else {
                0int
            }) == steps || move_blocked(
                final(w).maze,
                bs,
                final(w).player.pos_x + (if want_x < 0 {
                    -mx
                } else {
                    mx
                }),
                final(w).player.pos_y + (if want_y < 0 {
                    -my
                } else {
                    my
                }),
                final(w).player.has_key,
            ))
        }),
{
    let mut ev: Option<GameEvent> = None;
    let ghost mut moved: int = 0;
    let ghost mut door_y: int = 0;
    let ghost mut door_x: int = 0;
    let bs: i64 = w.block_size as i64;
    let max_step: u64 = (bs * FP / 4) as u64;
    let steps_raw: u64 = (total + max_step - 1) / max_step;
    let steps64: u64 = if steps_raw == 0 {
        1
    } else {
        steps_raw
    };
    proof {
        vstd::arithmetic::div_mod::lemma_div_nonincreasing(
            (total + max_step - 1) as int,
            max_step as int,
        );
    }
    proof {
        assert(steps64 as int == spec_substeps(total as int, bs as int));
    }
    let steps: usize = steps64 as usize;
    let abs_wx: i64 = if want_x < 0 {
        -want_x
    } else {
        want_x
    };
    let abs_wy: i64 = if want_y < 0 {
        -want_y
    } else {
        want_y
    };
    let sx_mag: i64 = abs_wx / (steps as i64);
    let sy_mag: i64 = abs_wy / (steps as i64);
    let ghost m0 = w.maze;
    let ghost p0 = w.player;
    proof {
        assert(0 * sx_mag == 0 && 0 * sy_mag == 0) by (nonlinear_arith);
    }
    let mut stopped: bool = false;
    let mut k: usize = 0;
    while k < steps && !stopped
        invariant
            w.block_size == old(w).block_size,
            bs == w.block_size,
            1 <= w.maze.rows <= 10000,
            1 <= w.maze.cols <= 10000,
            1 <= w.block_size <= 10000,
            w.maze.rows * w.block_size <= 1_000_000,
            w.maze.cols * w.block_size <= 1_000_000,
            w.maze.wf(),
            m0 == old(w).maze,
            doors_only_opened(old(w).maze, w.maze),
            w.enemies == old(w).enemies,
            w.medkits == old(w).medkits,
            w.keys == old(w).keys,
            w.bins == old(w).bins,
            w.fog == old(w).fog,
            w.fog.wf(),
            w.fog.rows == w.maze.rows,
            w.fog.cols == w.maze.cols,
            old(w).goal_unlocked ==> w.goal_unlocked,
            old(w).fog.rows == old(w).maze.rows,
            old(w).fog.cols == old(w).maze.cols,
            forall|i: int|
                0 <= i < w.enemies@.len() ==> enemy_ok(old(w).maze, #[trigger] w.enemies@[i]),
            forall|i: int|
                0 <= i < w.medkits@.len() ==> in_bounds(
                    old(w).maze,
                    (#[trigger] w.medkits@[i]).cell,
                ),
            forall|i: int|
                0 <= i < w.keys@.len() ==> in_bounds(old(w).maze, (#[trigger] w.keys@[i]).cell),
            forall|i: int|
                0 <= i < w.bins@.len() ==> in_bounds(old(w).maze, (#[trigger] w.bins@[i]).cell),
            w.player.wf(),
            0 <= w.player.pos_x < w.maze.cols * w.block_size * (FP as int),
            0 <= w.player.pos_y < w.maze.rows * w.block_size * (FP as int),
            0 <= sx_mag <= 200_000,
            0 <= sy_mag <= 200_000,
            w.player == (Player {
                pos_x: w.player.pos_x,
                pos_y: w.player.pos_y,
                has_key: w.player.has_key,
                ..p0
            }),
            p0 == (Player { stamina: p0.stamina, ..old(w).player }),
            w.player.has_key == (old(w).player.has_key && ev is None),
            ev is Some ==> ev == Some(GameEvent::DoorOpened) && old(w).player.has_key,
            (w.player.pos_x == p0.pos_x && w.player.pos_y == p0.pos_y) || is_walkable(
                crate::path::cell_at(w.maze, w.player_cell()),
            ),
            k <= steps,
            0 <= moved <= k,
            w.player.pos_x == p0.pos_x + (if want_x < 0 {
                -(moved * sx_mag)
            } else {
                moved * sx_mag
            }),
            w.player.pos_y == p0.pos_y + (if want_y < 0 {
                -(moved * sy_mag)
            } else {
                moved * sy_mag
            }),
            !stopped ==> k as int == moved + (if ev is Some {
                1int
            } else {
                0int
            }),
            stopped ==> move_blocked(
                w.maze,
                bs as int,
                w.player.pos_x + (if want_x < 0 {
                    -(sx_mag as int)
                } else {
                    sx_mag as int
                }),
                w.player.pos_y + (if want_y < 0 {
                    -(sy_mag as int)
                } else {
                    sy_mag as int
                }),
                w.player.has_key,
            ),
            ev is None ==> w.maze == m0 && w.goal_unlocked == old(w).goal_unlocked,
            ev is Some ==> {
                &&& 0 <= door_y < m0.rows
                &&& 0 <= door_x < m0.cols
                &&& m0.at(door_y, door_x) == 'D'
                &&& w.maze.at(door_y, door_x) == ' '
                &&& (forall|y2: int, x2: int|
                    0 <= y2 < m0.rows && 0 <= x2 < m0.cols && !(y2 == door_y && x2 == door_x)
                        ==> #[trigger] w.maze.at(y2, x2) == m0.at(y2, x2))
                &&& w.goal_unlocked == (old(w).goal_unlocked || goal_beside(
                    w.maze,
                    door_y,
                    door_x,
                ))
            },
        decreases steps - k,
    {
        let new_x: i64 = if want_x < 0 {
            w.player.pos_x - sx_mag
        } else {
            w.player.pos_x + sx_mag
        };
        let new_y: i64 = if want_y < 0 {
            w.player.pos_y - sy_mag
        } else {
            w.player.pos_y + sy_mag
        };
        if new_x < 0 || new_y < 0 {
            stopped = true;
        } else {
            let ci: i64 = new_x / FP / bs;
            let cj: i64 = new_y / FP / bs;
            if ci >= w.maze.cols() as i64 || cj >= w.maze.rows() as i64 {
                stopped = true;
            } else {
                proof {
                    vstd::arithmetic::div_mod::lemma_div_pos_is_pos(new_x as int, FP as int);
                    vstd::arithmetic::div_mod::lemma_div_pos_is_pos(
                        new_x as int / (FP as int),
                        bs as int,
                    );
                    vstd::arithmetic::div_mod::lemma_div_pos_is_pos(new_y as int, FP as int);
                    vstd::arithmetic::div_mod::lemma_div_pos_is_pos(
                        new_y as int / (FP as int),
                        bs as int,
                    );
                    lemma_cell_pos_bound(new_x as int, bs as int, w.maze.cols as int);
                    lemma_cell_pos_bound(new_y as int, bs as int, w.maze.rows as int);
                }
                let ch: char = w.maze.read(cj as usize, ci as usize);
                if ch == ' ' || ch == 'p' || ch == 'g' {
                    w.player.pos_x = new_x;
                    w.player.pos_y = new_y;
                    proof {
                        assert((moved + 1) * sx_mag == moved * sx_mag + sx_mag
                            && (moved + 1) * sy_mag == moved * sy_mag + sy_mag)
                            by (nonlinear_arith);
                        moved = moved + 1;
                    }
                } else if ch == 'D' {
                    if w.player.has_key {
                        let ghost m_pre = w.maze;
                        let ghost pc = w.player_cell();
                        w.maze.set(cj as usize, ci as usize, ' ');
                        proof {
                            if !(w.player.pos_x == p0.pos_x && w.player.pos_y == p0.pos_y) {
                                lemma_pos_cell_in_grid(
                                    w.player.pos_x as int,
                                    w.block_size as int,
                                    w.maze.cols as int,
                                );
                                lemma_pos_cell_in_grid(
                                    w.player.pos_y as int,
                                    w.block_size as int,
                                    w.maze.rows as int,
                                );
                                assert(is_walkable(crate::path::cell_at(m_pre, pc)));
                                assert(!(pc.1 == cj && pc.0 == ci));
                                assert(crate::path::cell_at(w.maze, pc) == crate::path::cell_at(
                                    m_pre,
                                    pc,
                                ));
                            }
                        }
                        w.player.has_key = false;
                        ev = Some(GameEvent::DoorOpened);
                        proof {
                            door_y = cj as int;
                            door_x = ci as int;
                        }
                        // If the opened door guards the goal, unlock it.
                        let mut found_goal: bool = false;
                        let mut j: usize = 0;
                        while j < 4
                            invariant
                                w.maze.wf(),
                                1 <= w.maze.rows <= 10000,
                                1 <= w.maze.cols <= 10000,
                                0 <= ci < w.maze.cols,
                                0 <= cj < w.maze.rows,
                                j <= 4,
                                found_goal == ((j > 0 && ci + 1 < w.maze.cols && w.maze.at(
                                    cj as int,
                                    ci + 1,
                                ) == 'g') || (j > 1 && ci - 1 >= 0 && w.maze.at(
                                    cj as int,
                                    ci - 1,
                                ) == 'g') || (j > 2 && cj + 1 < w.maze.rows && w.maze.at(
                                    cj + 1,
                                    ci as int,
                                ) == 'g') || (j > 3 && cj - 1 >= 0 && w.maze.at(
                                    cj - 1,
                                    ci as int,
                                ) == 'g')),
                            decreases 4 - j,
                        {
                            let ni: i64 = if j == 0 {
                                ci + 1
                            } else if j == 1 {
                                ci - 1
                            } else {
                                ci
                            };
                            let nj: i64 = if j == 2 {
                                cj + 1
                            } else if j == 3 {
                                cj - 1
                            } else {
                                cj
                            };
                            if 0 <= ni && ni < w.maze.cols() as i64 && 0 <= nj && nj
                                < w.maze.rows() as i64 {
                                if w.maze.read(nj as usize, ni as usize) == 'g' {
                                    found_goal = true;
                                }
                            }
                            j = j + 1;
                        }
                        proof {
                            assert(found_goal == goal_beside(w.maze, cj as int, ci as int));
                        }
                        if found_goal {
                            w.goal_unlocked = true;
                        }
                    } else {
                        stopped = true;
                    }
                } else {
                    stopped = true;
                }
            }
        }
        k = k + 1;
    }
    proof {
        assert(steps64 as int == spec_substeps(total as int, old(w).block_size as int));
        assert forall|i: int|
            0 <= i < w.enemies@.len() implies enemy_ok(w.maze, #[trigger] w.enemies@[i]) by {
            assert(enemy_ok(old(w).maze, w.enemies@[i]));
            lemma_route_ok_after_doors(old(w).maze, w.maze, w.enemies@[i].path@);
        }
        if is_walkable(crate::path::cell_at(old(w).maze, old(w).player_cell())) && w.player.pos_x
            == old(w).player.pos_x && w.player.pos_y == old(w).player.pos_y {
            let c = old(w).player_cell();
            lemma_pos_cell_in_grid(
                old(w).player.pos_x as int,
                old(w).block_size as int,
                old(w).maze.cols as int,
            );
            lemma_pos_cell_in_grid(
                old(w).player.pos_y as int,
                old(w).block_size as int,
                old(w).maze.rows as int,
            );
            assert(w.maze.at(c.1 as int, c.0 as int) == old(w).maze.at(c.1 as int, c.0 as int)
                || old(w).maze.at(c.1 as int, c.0 as int) == 'D');
        }
        if ev is Some {
            assert(old(w).maze.at(door_y, door_x) == 'D' && w.maze.at(door_y, door_x) == ' ');
            assert(some_door_opened(old(w).maze, w.maze));
            if w.goal_unlocked && !old(w).goal_unlocked {
                assert(goal_beside(w.maze, door_y, door_x));
                assert(opened_door_guards_goal(old(w).maze, w.maze));
            }
            if opened_door_guards_goal(old(w).maze, w.maze) {
                let (yy, xx) = choose|yy: int, xx: int|
                    0 <= yy < old(w).maze.rows && 0 <= xx < old(w).maze.cols && old(w).maze.at(
                        yy,
                        xx,
                    ) == 'D' && #[trigger] w.maze.at(yy, xx) == ' ' && goal_beside(w.maze, yy, xx);
                assert(yy == door_y && xx == door_x);
            }
        } else {
            assert(w.maze == old(w).maze);
            assert forall|yy: int, xx: int|
                0 <= yy < old(w).maze.rows && 0 <= xx < old(w).maze.cols && old(w).maze.at(yy, xx)
                    == 'D' implies !(#[trigger] w.maze.at(yy, xx) == ' ') by {}
        }
    }
    (ev, Ghost(moved))
}

/// Resolve held movement keys for one frame: rotation is applied by
/// `rotate_player` first; this function drains stamina while running,
/// splits the wanted translation into sub-steps of at most a quarter
/// cell, and walks them one by one, stopping at walls, stepping through
/// open cells, and opening a locked door when the key is held (which
/// consumes the key, and unlocks the goal if the door guards it).
#[verifier::rlimit(100)]
#[verifier::spinoff_prover]
pub fn move_player(
    w: &mut World,
    up_down: bool,
    down_down: bool,
    shift_down: bool,
    dir_x: i64,
    dir_y: i64,
    dt_us: u32,
) -> (ev: Option<GameEvent>)
    requires
        old(w).wf(),
        -FP <= dir_x <= FP,
        -FP <= dir_y <= FP,
        dt_us <= 1_000_000,
    ensures
        final(w).wf(),
        final(w).block_size == old(w).block_size,
        doors_only_opened(old(w).maze, final(w).maze),
        final(w).enemies == old(w).enemies,
        final(w).medkits == old(w).medkits,
        final(w).keys == old(w).keys,
        final(w).bins == old(w).bins,
        final(w).fog == old(w).fog,
        old(w).goal_unlocked ==> final(w).goal_unlocked,
        final(w).player == (Player {
            pos_x: final(w).player.pos_x,
            pos_y: final(w).player.pos_y,
            has_key: final(w).player.has_key,
            stamina: final(w).player.stamina,
            ..old(w).player
        }),
        final(w).player.stamina == ({
            let dtc = min(dt_us as int, 50_000);
            if shift_down && old(w).player.stamina > 5_000_000 {
                vstd::math::max(old(w).player.stamina - 60 * dtc, 0)
            } else {
                old(w).player.stamina as int
            }
        }),
        final(w).player.has_key == (old(w).player.has_key && ev is None),
        ev is Some ==> ev == Some(GameEvent::DoorOpened) && old(w).player.has_key,
        (ev is Some) <==> some_door_opened(old(w).maze, final(w).maze),
        final(w).goal_unlocked == (old(w).goal_unlocked || opened_door_guards_goal(
            old(w).maze,
            final(w).maze,
        )),
        is_walkable(crate::path::cell_at(old(w).maze, old(w).player_cell())) ==> is_walkable(
            crate::path::cell_at(final(w).maze, final(w).player_cell()),
        ),
        // The player moves only toward the wanted displacement of this
        // frame, never past it: direction and magnitude are bounded by
        // the held keys, the run-adjusted speed and the clamped frame
        // time. The per-sub-step law stands on `walk_substeps`.
        ({
            let dtc = min(dt_us as int, 50_000);
            let sp = spec_move_speed(shift_down, old(w).player.stamina, dtc);
            let wx = spec_want(dir_x as int, sp, dtc, up_down, down_down);
            let wy = spec_want(dir_y as int, sp, dtc, up_down, down_down);
            &&& (wx >= 0 ==> old(w).player.pos_x <= final(w).player.pos_x <= old(w).player.pos_x
                + wx)
            &&& (wx < 0 ==> old(w).player.pos_x + wx <= final(w).player.pos_x <= old(
                w,
            ).player.pos_x)
            &&& (wy >= 0 ==> old(w).player.pos_y <= final(w).player.pos_y <= old(w).player.pos_y
                + wy)
            &&& (wy < 0 ==> old(w).player.pos_y + wy <= final(w).player.pos_y <= old(
                w,
            ).player.pos_y)
        }),
{
    let dtc: u32 = if dt_us > 50_000 {
        50_000
    } else {
        dt_us
    };
    let running: bool = shift_down && w.player.stamina > 5_000_000;
    let mut speed: i64 = 80;
    if running {
        speed = 128;
        let drain: u32 = 60 * dtc;
        if w.player.stamina > drain {
            w.player.stamina = w.player.stamina - drain;
        } else {
            w.player.stamina = 0;
        }
        if w.player.stamina <= 10_000_000 {
            speed = 64;
        }
    }

    proof {
        assert(speed as int == spec_move_speed(shift_down, old(w).player.stamina, dtc as int));
    }
    let mut want_x: i64 = 0;
    let mut want_y: i64 = 0;

    let adx: i64 = if dir_x < 0 {
        -dir_x
    } else {
        dir_x
    };
    let ady: i64 = if dir_y < 0 {
        -dir_y
    } else {
        dir_y
    };
    proof {
        assert(0 <= adx * speed <= 131_072 && 0 <= ady * speed <= 131_072 && 0 <= adx * speed * (
        dtc as i64) <= 65_536_000_000i64 && 0 <= ady * speed * (dtc as i64)
            <= 65_536_000_000i64) by (nonlinear_arith)
            requires
                0 <= adx <= 1024,
                0 <= ady <= 1024,
                0 <= speed <= 128,
                0 <= dtc <= 50_000,
        ;
    }
    let mag_x: i64 = adx * speed * (dtc as i64) / 1_000_000;
    let mag_y: i64 = ady * speed * (dtc as i64) / 1_000_000;
    let fx: i64 = if dir_x < 0 {
        -mag_x
    } else {
        mag_x
    };
    let fy: i64 = if dir_y < 0 {
        -mag_y
    } else {
        mag_y
    };
    if up_down {
        want_x = want_x + fx;
        want_y = want_y + fy;
    }
    if down_down {
        want_x = want_x - fx;
        want_y = want_y - fy;
    }

    let mut ev: Option<GameEvent> = None;
    let d2: u64 = dist_squared(want_x, want_y);
    let total: u64 = isqrt(d2);
    proof {
        assert(d2 <= 40_000_000_000u64) by (nonlinear_arith)
            requires
                d2 == want_x * want_x + want_y * want_y,
                -131072 <= want_x <= 131072,
                -131072 <= want_y <= 131072,
        ;
        assert(total <= 200_000u64) by (nonlinear_arith)
            requires
                total * total <= 40_000_000_000u64,
        ;
    }
    if total > 0 {
        let res = walk_substeps(w, want_x, want_y, total);
        ev = res.0;
        proof {
            let mvd = res.1@;
            let steps_s = spec_substeps(total as int, old(w).block_size as int);
            let awx = if want_x < 0 {
                -(want_x as int)
            } else {
                want_x as int
            };
            let awy = if want_y < 0 {
                -(want_y as int)
            } else {
                want_y as int
            };
            vstd::arithmetic::div_mod::lemma_div_pos_is_pos(awx, steps_s);
            vstd::arithmetic::div_mod::lemma_div_pos_is_pos(awy, steps_s);
            vstd::arithmetic::div_mod::lemma_fundamental_div_mod(awx, steps_s);
            vstd::arithmetic::div_mod::lemma_fundamental_div_mod(awy, steps_s);
            vstd::arithmetic::div_mod::lemma_remainder_lower(awx, steps_s);
            vstd::arithmetic::div_mod::lemma_remainder_lower(awy, steps_s);
            vstd::arithmetic::mul::lemma_mul_inequality(mvd, steps_s, awx / steps_s);
            vstd::arithmetic::mul::lemma_mul_inequality(mvd, steps_s, awy / steps_s);
            vstd::arithmetic::mul::lemma_mul_nonnegative(mvd, awx / steps_s);
            vstd::arithmetic::mul::lemma_mul_nonnegative(mvd, awy / steps_s);
            assert(steps_s * (awx / steps_s) <= awx && steps_s * (awy / steps_s) <= awy);
            assert(0 <= mvd * (awx / steps_s) <= awx && 0 <= mvd * (awy / steps_s) <= awy);
        }
    }
    proof {
        let dtc_s = min(dt_us as int, 50_000);
        let sp = spec_move_speed(shift_down, old(w).player.stamina, dtc_s);
        assert(want_x as int == spec_want(dir_x as int, sp, dtc_s, up_down, down_down));
        assert(want_y as int == spec_want(dir_y as int, sp, dtc_s, up_down, down_down));
        if total == 0 {
            assert(d2 == 0 && want_x == 0 && want_y == 0) by (nonlinear_arith)
                requires
                    d2 == want_x * want_x + want_y * want_y,
                    total == 0,
                    total * total <= d2,
                    d2 < (total + 1) * (total + 1),
            ;
            assert forall|yy: int, xx: int|
                0 <= yy < old(w).maze.rows && 0 <= xx < old(w).maze.cols && old(w).maze.at(yy, xx)
                    == 'D' implies !(#[trigger] w.maze.at(yy, xx) == ' ') by {}
        }
    }
    ev
}


/// Health and shield after `hits` enemy strikes of 50 damage each: the
/// shield absorbs first, health takes the overflow and stops at zero.
pub open spec fn spec_damage_fold(health: int, shield: int, hits: int) -> (int, int)
    decreases hits,
{
    if hits <= 0 {
        (health, shield)
    } else {
        let prev = spec_damage_fold(health, shield, hits - 1);
        let absorb = min(prev.1, 50);
        (prev.0 - min(prev.0, 50 - absorb), prev.1 - absorb)
    }
}

/// Health and shield after taking `takes` medkits of 25 points each:
/// health heals toward its maximum; at full health the shield charges.
pub open spec fn spec_heal_fold(health: int, shield: int, takes: int, hmax: int, smax: int) -> (
    int,
    int,
)
    decreases takes,
{
    if takes <= 0 {
        (health, shield)
    } else {
        let prev = spec_heal_fold(health, shield, takes - 1, hmax, smax);
        if prev.0 < hmax {
            (min(prev.0 + 25, hmax), prev.1)
        } else {
            (prev.0, min(prev.1 + 25, smax))
        }
    }
}

/// How many of the first `i` medkits the player standing on `pc` takes
/// this step: those not yet taken whose cell is `pc`.
pub open spec fn spec_medkits_taken(med: Seq<Pickup>, pc: (usize, usize), i: int) -> int
    decreases i,
{
    if i <= 0 {
        0
    } else {
        spec_medkits_taken(med, pc, i - 1) + (if !med[i - 1].taken && med[i - 1].cell == pc {
            1int
        } else {
            0int
        })
    }
}

/// The medkits taken among the first `i` are between none and all.
proof fn lemma_medkits_taken_bounds(med: Seq<Pickup>, pc: (usize, usize), i: int)
    requires
        0 <= i <= med.len(),
    ensures
        0 <= spec_medkits_taken(med, pc, i) <= i,
    decreases i,
{
    if i > 0 {
        lemma_medkits_taken_bounds(med, pc, i - 1);
    }
}

/// One fixed simulation step while playing: advance the player's
/// timers, reveal fog around the player, update every enemy (each
/// landed attack costs 50 health), resolve pickups under the player,
/// then decide the phase: reaching the goal with the key or with the
/// goal unlocked wins; running out of health loses; standing on the
/// goal without either only produces a need-key notification.
#[verifier::rlimit(100)]
pub fn playing_fixed_step(w: &mut World) -> (r: (AppState, Vec<GameEvent>))
    requires
        old(w).wf(),
    ensures
        final(w).wf(),
        final(w).maze == old(w).maze,
        final(w).block_size == old(w).block_size,
        final(w).goal_unlocked == old(w).goal_unlocked,
        final(w).player == (Player {
            health: final(w).player.health,
            shield: final(w).player.shield,
            stamina: final(w).player.stamina,
            binocular_timer: final(w).player.binocular_timer,
            step_timer: final(w).player.step_timer,
            has_key: final(w).player.has_key,
            ..old(w).player
        }),
        ({
            let pc = old(w).player_cell();
            &&& (forall|y: int, x: int|
                0 <= y < old(w).fog.rows && 0 <= x < old(w).fog.cols ==> final(w).fog.at(y, x) == (
                old(w).fog.at(y, x) || crate::fog::in_disk(y, x, pc.1 as int, pc.0 as int, 2)))
            &&& (forall|i: int|
                0 <= i < old(w).medkits@.len() ==> (#[trigger] final(w).medkits@[i]).cell == old(
                    w,
                ).medkits@[i].cell && final(w).medkits@[i].taken == (old(w).medkits@[i].taken || old(
                    w,
                ).medkits@[i].cell == pc))
            &&& (forall|i: int|
                0 <= i < old(w).keys@.len() ==> (#[trigger] final(w).keys@[i]).cell == old(
                    w,
                ).keys@[i].cell && final(w).keys@[i].taken == (old(w).keys@[i].taken || old(
                    w,
                ).keys@[i].cell == pc))
            &&& (forall|i: int|
                0 <= i < old(w).bins@.len() ==> (#[trigger] final(w).bins@[i]).cell == old(
                    w,
                ).bins@[i].cell && final(w).bins@[i].taken == (old(w).bins@[i].taken || old(
                    w,
                ).bins@[i].cell == pc))
            &&& (final(w).player.has_key <==> (old(w).player.has_key || exists|i: int|
                0 <= i < old(w).keys@.len() && !(#[trigger] old(w).keys@[i]).taken && old(
                    w,
                ).keys@[i].cell == pc))
            &&& final(w).enemies@.len() == old(w).enemies@.len()
            &&& (forall|i: int|
                0 <= i < old(w).enemies@.len() ==> {
                    &&& (#[trigger] final(w).enemies@[i]).spawn_cell == old(
                        w,
                    ).enemies@[i].spawn_cell
                    &&& final(w).enemies@[i].speed == old(w).enemies@[i].speed
                    &&& final(w).enemies@[i].tex_index == old(w).enemies@[i].tex_index
                })
            // Health and shield change only by the attack rule (50
            // damage per landed hit, shield first) followed by the
            // medkits taken this step.
            &&& (exists|hits: int|
                {
                    &&& 0 <= #[trigger] (hits * 1) <= old(w).enemies@.len()
                    &&& ({
                        let d = spec_damage_fold(
                            old(w).player.health as int,
                            old(w).player.shield as int,
                            hits,
                        );
                        let hl = spec_heal_fold(
                            d.0,
                            d.1,
                            spec_medkits_taken(old(w).medkits@, pc, old(w).medkits@.len() as int),
                            old(w).player.health_max as int,
                            old(w).player.shield_max as int,
                        );
                        final(w).player.health == hl.0 && final(w).player.shield == hl.1
                    })
                })
            &&& ({
                let on_goal = crate::path::cell_at(old(w).maze, pc) == 'g';
                let win = on_goal && (final(w).player.has_key || old(w).goal_unlocked);
                &&& (r.0 is Victory <==> win)
                &&& (r.0 is GameOver <==> (!win && final(w).player.health == 0))
                &&& (r.0 is Playing <==> (!win && final(w).player.health > 0))
                &&& (r.1@.contains(GameEvent::NeedKey) <==> (on_goal && !(final(w).player.has_key
                    || old(w).goal_unlocked)))
            })
        }),
{
    let dt: u32 = FIXED_DT_US as u32;
    w.player.update_timers(dt);
    let bs: i64 = w.block_size as i64;
    proof {
        lemma_pos_cell_in_grid(w.player.pos_x as int, bs as int, w.maze.cols as int);
        lemma_pos_cell_in_grid(w.player.pos_y as int, bs as int, w.maze.rows as int);
    }
    let pcx: usize = (w.player.pos_x / FP / bs) as usize;
    let pcy: usize = (w.player.pos_y / FP / bs) as usize;
    crate::fog::reveal_fog(&mut w.fog, pcx, pcy, 2);

    let mut events: Vec<GameEvent> = Vec::new();
    let ghost p1 = w.player;
    let ghost fog1 = w.fog;
    let ghost enemies0 = w.enemies@;
    let n: usize = w.enemies.len();
    let mut updated: Vec<Enemy> = Vec::new();
    let ghost mut hits: int = 0;
    let mut idx: usize = 0;
    while idx < n
        invariant
            w.maze == old(w).maze,
            w.block_size == old(w).block_size,
            w.goal_unlocked == old(w).goal_unlocked,
            w.medkits == old(w).medkits,
            w.keys == old(w).keys,
            w.bins == old(w).bins,
            w.fog == fog1,
            old(w).wf(),
            w.maze.wf(),
            1 <= w.maze.rows <= 10000,
            1 <= w.maze.cols <= 10000,
            1 <= w.block_size <= 10000,
            w.maze.rows * w.block_size <= 1_000_000,
            w.maze.cols * w.block_size <= 1_000_000,
            bs == w.block_size,
            w.player.wf(),
            0 <= w.player.pos_x < w.maze.cols * w.block_size * (FP as int),
            0 <= w.player.pos_y < w.maze.rows * w.block_size * (FP as int),
            w.player == (Player {
                health: w.player.health,
                shield: w.player.shield,
                ..p1
            }),
            p1 == (Player {
                health: p1.health,
                shield: p1.shield,
                stamina: p1.stamina,
                binocular_timer: p1.binocular_timer,
                step_timer: p1.step_timer,
                has_key: p1.has_key,
                ..old(w).player
            }),
            dt == 16_667,
            idx <= n,
            updated@.len() == idx,
            w.enemies@.len() == n - idx,
            n == enemies0.len(),
            forall|i: int| 0 <= i < updated@.len() ==> enemy_ok(w.maze, #[trigger] updated@[i]),
            forall|i: int|
                0 <= i < w.enemies@.len() ==> enemy_ok(w.maze, #[trigger] w.enemies@[i]),
            forall|i: int|
                0 <= i < w.enemies@.len() ==> #[trigger] w.enemies@[i] == enemies0[idx + i],
            forall|i: int|
                0 <= i < updated@.len() ==> {
                    &&& (#[trigger] updated@[i]).spawn_cell == enemies0[i].spawn_cell
                    &&& updated@[i].speed == enemies0[i].speed
                    &&& updated@[i].tex_index == enemies0[i].tex_index
                },
            0 <= hits <= idx,
            (w.player.health as int, w.player.shield as int) == spec_damage_fold(
                p1.health as int,
                p1.shield as int,
                hits,
            ),
            forall|j: int| 0 <= j < events@.len() ==> #[trigger] events@[j] == GameEvent::EnemyHit,
        decreases n - idx,
    {
        let mut e: Enemy = w.enemies.remove(0);
        let attacked: bool = e.update(&w.maze, w.block_size, w.player.pos_x, w.player.pos_y, dt);
        if attacked {
            proof {
                assert(spec_damage_fold(p1.health as int, p1.shield as int, hits + 1)
                    == ({
                    let prev = spec_damage_fold(p1.health as int, p1.shield as int, hits);
                    let absorb = min(prev.1, 50);
                    (prev.0 - min(prev.0, 50 - absorb), prev.1 - absorb)
                }));
            }
            w.player.apply_damage(50);
            proof {
                hits = hits + 1;
            }
            events.push(GameEvent::EnemyHit);
        }
        updated.push(e);
        idx = idx + 1;
    }
    w.enemies = updated;

    let ghost p2 = w.player;
    let ghost med0 = w.medkits@;
    let ghost enemies1 = w.enemies;
    let ghost hits_total = hits;
    let mut i: usize = 0;
    while i < w.medkits.len()
        invariant
            w.maze == old(w).maze,
            w.block_size == old(w).block_size,
            w.goal_unlocked == old(w).goal_unlocked,
            w.fog == fog1,
            w.enemies == enemies1,
            w.keys == old(w).keys,
            w.bins == old(w).bins,
            w.medkits@.len() == med0.len(),
            med0 == old(w).medkits@,
            i <= w.medkits@.len(),
            w.player.wf(),
            w.player.pos_x == p2.pos_x,
            w.player.pos_y == p2.pos_y,
            w.player == (Player {
                health: w.player.health,
                shield: w.player.shield,
                ..p2
            }),
            (w.player.health as int, w.player.shield as int) == spec_heal_fold(
                p2.health as int,
                p2.shield as int,
                spec_medkits_taken(med0, (pcx, pcy), i as int),
                p2.health_max as int,
                p2.shield_max as int,
            ),
            forall|j: int|
                0 <= j < med0.len() ==> (#[trigger] w.medkits@[j]).cell == med0[j].cell,
            forall|j: int|
                0 <= j < i ==> (#[trigger] w.medkits@[j]).taken == (med0[j].taken || med0[j].cell
                    == (pcx, pcy)),
            forall|j: int| i <= j < med0.len() ==> (#[trigger] w.medkits@[j]).taken == med0[j].taken,
            forall|j: int| 0 <= j < events@.len() ==> #[trigger] events@[j] != GameEvent::NeedKey,
        decreases w.medkits@.len() - i,
    {
        let m: Pickup = w.medkits[i];
        proof {
            lemma_medkits_taken_bounds(med0, (pcx, pcy), i as int);
            assert(spec_medkits_taken(med0, (pcx, pcy), i + 1) == spec_medkits_taken(
                med0,
                (pcx, pcy),
                i as int,
            ) + (if !med0[i as int].taken && med0[i as int].cell == (pcx, pcy) {
                1int
            } else {
                0int
            }));
            assert(m == med0[i as int]);
            if !m.taken && m.cell == (pcx, pcy) {
                let nt = spec_medkits_taken(med0, (pcx, pcy), i as int);
                assert(spec_heal_fold(
                    p2.health as int,
                    p2.shield as int,
                    nt + 1,
                    p2.health_max as int,
                    p2.shield_max as int,
                ) == ({
                    let prev = spec_heal_fold(
                        p2.health as int,
                        p2.shield as int,
                        nt,
                        p2.health_max as int,
                        p2.shield_max as int,
                    );
                    if prev.0 < p2.health_max {
                        (min(prev.0 + 25, p2.health_max as int), prev.1)
                    } else {
                        (prev.0, min(prev.1 + 25, p2.shield_max as int))
                    }
                }));
            }
        }
        if !m.taken && m.cell.0 == pcx && m.cell.1 == pcy {
            w.medkits.set(i, Pickup { cell: m.cell, taken: true });
            w.player.pickup_medkit(25);
            events.push(GameEvent::MedkitTaken);
        }
        i = i + 1;
    }

    let ghost p3 = w.player;
    let ghost keys0 = w.keys@;
    let ghost med1 = w.medkits;
    let mut i2: usize = 0;
    while i2 < w.keys.len()
        invariant
            w.maze == old(w).maze,
            w.block_size == old(w).block_size,
            w.goal_unlocked == old(w).goal_unlocked,
            w.fog == fog1,
            w.enemies == enemies1,
            w.medkits == med1,
            w.bins == old(w).bins,
            w.keys@.len() == keys0.len(),
            keys0 == old(w).keys@,
            i2 <= w.keys@.len(),
            w.player.wf(),
            w.player.pos_x == p3.pos_x,
            w.player.pos_y == p3.pos_y,
            w.player == (Player { has_key: w.player.has_key, ..p3 }),
            forall|j: int| 0 <= j < keys0.len() ==> (#[trigger] w.keys@[j]).cell == keys0[j].cell,
            forall|j: int|
                0 <= j < i2 ==> (#[trigger] w.keys@[j]).taken == (keys0[j].taken || keys0[j].cell
                    == (pcx, pcy)),
            forall|j: int| i2 <= j < keys0.len() ==> (#[trigger] w.keys@[j]).taken == keys0[j].taken,
            w.player.has_key <==> (p3.has_key || exists|j: int|
                0 <= j < i2 && !(#[trigger] keys0[j]).taken && keys0[j].cell == (pcx, pcy)),
            forall|j: int| 0 <= j < events@.len() ==> #[trigger] events@[j] != GameEvent::NeedKey,
        decreases w.keys@.len() - i2,
    {
        let kp: Pickup = w.keys[i2];
        if !kp.taken && kp.cell.0 == pcx && kp.cell.1 == pcy {
            w.keys.set(i2, Pickup { cell: kp.cell, taken: true });
            w.player.pickup_key();
            events.push(GameEvent::KeyTaken);
            proof {
                assert(!keys0[i2 as int].taken && keys0[i2 as int].cell == (pcx, pcy));
            }
        }
        i2 = i2 + 1;
    }

    let ghost p4 = w.player;
    let ghost bins0 = w.bins@;
    let ghost keys1 = w.keys;
    let mut i3: usize = 0;
    while i3 < w.bins.len()
        invariant
            w.maze == old(w).maze,
            w.block_size == old(w).block_size,
            w.goal_unlocked == old(w).goal_unlocked,
            w.fog == fog1,
            w.enemies == enemies1,
            w.medkits == med1,
            w.keys == keys1,
            w.bins@.len() == bins0.len(),
            bins0 == old(w).bins@,
            i3 <= w.bins@.len(),
            w.player.wf(),
            w.player.pos_x == p4.pos_x,
            w.player.pos_y == p4.pos_y,
            w.player == (Player { binocular_timer: w.player.binocular_timer, ..p4 }),
            forall|j: int| 0 <= j < bins0.len() ==> (#[trigger] w.bins@[j]).cell == bins0[j].cell,
            forall|j: int|
                0 <= j < i3 ==> (#[trigger] w.bins@[j]).taken == (bins0[j].taken || bins0[j].cell
                    == (pcx, pcy)),
            forall|j: int| i3 <= j < bins0.len() ==> (#[trigger] w.bins@[j]).taken == bins0[j].taken,
            forall|j: int| 0 <= j < events@.len() ==> #[trigger] events@[j] != GameEvent::NeedKey,
        decreases w.bins@.len() - i3,
    {
        let bp: Pickup = w.bins[i3];
        if !bp.taken && bp.cell.0 == pcx && bp.cell.1 == pcy {
            w.bins.set(i3, Pickup { cell: bp.cell, taken: true });
            w.player.pickup_binoculars(60_000_000);
            events.push(GameEvent::BinocularsTaken);
        }
        i3 = i3 + 1;
    }

    proof {
        lemma_medkits_taken_bounds(med0, (pcx, pcy), med0.len() as int);
        let ghost nlen = old(w).enemies@.len() as int;
        assert(0 <= hits_total * 1 <= nlen) by (nonlinear_arith)
            requires
                0 <= hits_total <= nlen,
        ;
        assert((w.player.health as int, w.player.shield as int) == ({
            let d = spec_damage_fold(
                old(w).player.health as int,
                old(w).player.shield as int,
                hits_total,
            );
            spec_heal_fold(
                d.0,
                d.1,
                spec_medkits_taken(old(w).medkits@, (pcx, pcy), old(w).medkits@.len() as int),
                old(w).player.health_max as int,
                old(w).player.shield_max as int,
            )
        }));
    }
    let mut state: AppState = AppState::Playing;
    if w.player.health == 0 {
        state = AppState::GameOver;
        events.push(GameEvent::Died);
    }
    let cell_ch: char = w.maze.read(pcy, pcx);
    let mut need_key: bool = false;
    if cell_ch == 'g' {
        if w.player.has_key || w.goal_unlocked {
            state = AppState::Victory;
            events.push(GameEvent::Won);
        } else {
            need_key = true;
            events.push(GameEvent::NeedKey);
        }
    }
    proof {
        if need_key {
            assert(events@[events@.len() - 1] == GameEvent::NeedKey);
        }
        if !need_key {
            assert(forall|j: int|
                0 <= j < events@.len() ==> #[trigger] events@[j] != GameEvent::NeedKey);
        }
    }
    (state, events)
}

} // verus!
