//! A planet: what the host integrates, carried as it is, and the spawn
//! protection that the simulation counts down.
//!
//! The library never computes with a position, a velocity, a mass or a
//! radius. It keeps them for the host in the types the host has chosen: `P`
//! for points, `V` for vectors, `S` for scalars.

use vstd::prelude::*;

verus! {

/// One body of the simulation.
pub struct Planet<P, V, S> {
    pub id: usize,
    pub position: P,
    pub velocity: V,
    pub mass: S,
    pub radius: S,
    pub resultant_force: V,
    pub spawn_protection_timer: Option<u64>,
}

/// The spawn protection that is left of `timer` after `dt` nanoseconds: what
/// remains of it, and none once nothing remains.
pub open spec fn protection_after(timer: Option<u64>, dt: u64) -> Option<u64> {
    match timer {
        Some(left) => if left > dt {
            Some((left - dt) as u64)
        } else {
            None
        },
        None => None,
    }
}

impl<P, V, S> Planet<P, V, S> {
    /// The planet as it is after `dt` nanoseconds of its spawn protection
    /// have run out.
    pub open spec fn aged(self, dt: u64) -> Self {
        Planet { spawn_protection_timer: protection_after(self.spawn_protection_timer, dt), ..self }
    }

    /// A planet made of its parts.
    pub fn new(
        id: usize,
        position: P,
        velocity: V,
        mass: S,
        radius: S,
        resultant_force: V,
        spawn_protection_timer: Option<u64>,
    ) -> (n: Self)
        ensures
            n == (Planet {
                id,
                position,
                velocity,
                mass,
                radius,
                resultant_force,
                spawn_protection_timer,
            }),
    {
        Planet { id, position, velocity, mass, radius, resultant_force, spawn_protection_timer }
    }

    /// Lets `dt_duration` nanoseconds of the spawn protection run out. To move
    /// the planet is the host's part of the step.
    pub fn update(&mut self, dt_duration: u64)
        ensures
            *final(self) == old(self).aged(dt_duration),
    {
        match self.spawn_protection_timer {
            Some(left) => {
                if left > dt_duration {
                    self.spawn_protection_timer = Some(left - dt_duration);
                } else {
                    self.spawn_protection_timer = None;
                }
            },
            None => {},
        }
    }

    /// Whether the planet is still under spawn protection.
    pub fn has_spawn_protection(&self) -> (protected: bool)
        ensures
            protected == self.spawn_protection_timer.is_some(),
    {
        self.spawn_protection_timer.is_some()
    }
}

} // verus!
