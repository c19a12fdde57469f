use vstd::prelude::*;

verus! {

use vstd::math::{min, max};

/// Stamina is stored in millionths of a point so that regeneration at
/// 12 points per second can be applied exactly per microsecond of
/// simulated time.
pub const STAMINA_SCALE: u32 = 1_000_000;

/// Stamina regenerated per microsecond, in millionths of a point
/// (12 points per second).
pub const STAMINA_REGEN_PER_US: u32 = 12;

/// The player: continuous position and facing in fixed-point world
/// units, plus the depletable attributes.
///
/// Positions (`pos_x`, `pos_y`) are world units scaled by `crate::geom::FP`.
/// Angles (`angle`, `fov`) are microradians. Health and shield are whole
/// points; stamina is in millionths of a point; the timers are in
/// microseconds of simulated time.
pub struct Player {
    pub pos_x: i64,
    pub pos_y: i64,
    /// Facing angle in microradians, kept in (-pi, pi].
    pub angle: i64,
    /// Field of view in microradians.
    pub fov: i64,
    pub has_key: bool,
    pub health: u32,
    pub health_max: u32,
    pub shield: u32,
    pub shield_max: u32,
    pub stamina: u32,
    pub stamina_max: u32,
    /// Remaining enhanced-visibility time, in microseconds.
    pub binocular_timer: u32,
    /// Remaining footstep-sound delay, in microseconds.
    pub step_timer: u32,
}

impl Player {
    /// Every depletable or fillable attribute stays within [0, max].
    pub open spec fn wf(self) -> bool {
        &&& self.health <= self.health_max
        &&& self.shield <= self.shield_max
        &&& self.stamina <= self.stamina_max
    }

    pub fn new(x: i64, y: i64, angle: i64, fov: i64) -> (p: Player)
        ensures
            p.wf(),
            p.pos_x == x,
            p.pos_y == y,
            p.angle == angle,
            p.fov == fov,
            !p.has_key,
            p.health == 100 && p.health_max == 100,
            p.shield == 0 && p.shield_max == 100,
            p.stamina == 100 * STAMINA_SCALE && p.stamina_max == 100 * STAMINA_SCALE,
            p.binocular_timer == 0,
            p.step_timer == 0,
    {
        Player {
            pos_x: x,
            pos_y: y,
            angle,
            fov,
            has_key: false,
            health: 100,
            health_max: 100,
            shield: 0,
            shield_max: 100,
            stamina: 100 * STAMINA_SCALE,
            stamina_max: 100 * STAMINA_SCALE,
            binocular_timer: 0,
            step_timer: 0,
        }
    }

    /// Advance the per-player timers by `dt_us` microseconds: stamina
    /// regenerates toward its maximum, the binocular and step timers
    /// count down toward zero.
    pub fn update_timers(&mut self, dt_us: u32)
        requires
            old(self).wf(),
            dt_us <= 1_000_000,
        ensures
            final(self).wf(),
            final(self).stamina == min(
                old(self).stamina + STAMINA_REGEN_PER_US * dt_us,
                old(self).stamina_max as int,
            ),
            final(self).binocular_timer == max(old(self).binocular_timer - dt_us, 0int),
            final(self).step_timer == max(old(self).step_timer - dt_us, 0int),
            *final(self) == (Player {
                stamina: final(self).stamina,
                binocular_timer: final(self).binocular_timer,
                step_timer: final(self).step_timer,
                ..*old(self)
            }),
    {
        let regen: u32 = STAMINA_REGEN_PER_US * dt_us;
        if self.stamina < self.stamina_max {
            if regen < self.stamina_max - self.stamina {
                self.stamina = self.stamina + regen;
            } else {
                self.stamina = self.stamina_max;
            }
        }
        if self.binocular_timer > 0 {
            if self.binocular_timer > dt_us {
                self.binocular_timer = self.binocular_timer - dt_us;
            } else {
                self.binocular_timer = 0;
            }
        }
        if self.step_timer > 0 {
            if self.step_timer > dt_us {
                self.step_timer = self.step_timer - dt_us;
            } else {
                self.step_timer = 0;
            }
        }
    }

    /// Damage is absorbed by the shield first; whatever overflows the
    /// shield is taken from health, which never drops below zero.
    pub fn apply_damage(&mut self, amount: u32)
        requires
            old(self).wf(),
        ensures
            final(self).wf(),
            final(self).shield == old(self).shield - min(old(self).shield as int, amount as int),
            final(self).health == old(self).health - min(
                old(self).health as int,
                amount - min(old(self).shield as int, amount as int),
            ),
            *final(self) == (Player { shield: final(self).shield, health: final(self).health, ..*old(self) }),
    {
        let absorb: u32 = if self.shield < amount { self.shield } else { amount };
        self.shield = self.shield - absorb;
        let rest: u32 = amount - absorb;
        if rest < self.health {
            self.health = self.health - rest;
        } else {
            self.health = 0;
        }
    }

    /// A medkit heals health toward its maximum; at full health it
    /// charges the shield instead.
    pub fn pickup_medkit(&mut self, amount: u32)
        requires
            old(self).wf(),
        ensures
            final(self).wf(),
            old(self).health < old(self).health_max ==> {
                &&& final(self).health == min(
                    old(self).health + amount,
                    old(self).health_max as int,
                )
                &&& final(self).shield == old(self).shield
            },
            old(self).health >= old(self).health_max ==> {
                &&& final(self).shield == min(
                    old(self).shield + amount,
                    old(self).shield_max as int,
                )
                &&& final(self).health == old(self).health
            },
            *final(self) == (Player { shield: final(self).shield, health: final(self).health, ..*old(self) }),
    {
        if self.health < self.health_max {
            if amount < self.health_max - self.health {
                self.health = self.health + amount;
            } else {
                self.health = self.health_max;
            }
        } else {
            if amount < self.shield_max - self.shield {
                self.shield = self.shield + amount;
            } else {
                self.shield = self.shield_max;
            }
        }
    }

    pub fn pickup_key(&mut self)
        ensures
            *final(self) == (Player { has_key: true, ..*old(self) }),
    {
        self.has_key = true;
    }

    /// Binoculars grant `us` microseconds of enhanced visibility; a
    /// fresh pickup never shortens time already remaining.
    pub fn pickup_binoculars(&mut self, us: u32)
        ensures
            final(self).binocular_timer == max(old(self).binocular_timer as int, us as int),
            *final(self) == (Player { binocular_timer: final(self).binocular_timer, ..*old(self) }),
    {
        if us > self.binocular_timer {
            self.binocular_timer = us;
        }
    }
}

} // verus!
