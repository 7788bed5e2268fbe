//! The plain emitter that follows a planet: one particle at most in every
//! step, at a fixed pace and with a fixed lifetime.

use crate::emitters::{
    set_bodies, surviving_particles, with_bodies, Emitter, Particle, PARTICLE_LIFETIME,
    PARTICLE_SPAWN_PERIOD,
};
use std::collections::VecDeque;
use vstd::prelude::*;

verus! {

/// What a particle trail holds, as mathematics sees it.
pub ghost struct ParticleTrailState<P, Q> {
    /// The particles, oldest first.
    pub particles: Seq<Particle<Q>>,
    /// The time that has passed towards the next particle.
    pub spawn_timer: u64,
    /// Where the planet was when it was last seen.
    pub last_known_parent_position: P,
    /// Whether the trail is emitting.
    pub emitt: bool,
}

impl<P, Q> ParticleTrailState<P, Q> {
    /// A particle is due in a step of `dt` nanoseconds: the trail emits, and
    /// the timer reaches the period in this step.
    pub open spec fn due(self, dt: u64) -> bool {
        self.emitt && self.spawn_timer + dt >= PARTICLE_SPAWN_PERIOD
    }

    /// What the timer shows after a step of `dt` nanoseconds: the time that
    /// has passed, less one period where a particle is due; at most the
    /// longest time that can be told.
    pub open spec fn timer_after(self, dt: u64) -> u64 {
        if !self.emitt {
            self.spawn_timer
        } else if self.spawn_timer + dt < PARTICLE_SPAWN_PERIOD {
            (self.spawn_timer + dt) as u64
        } else if self.spawn_timer + dt - PARTICLE_SPAWN_PERIOD > u64::MAX {
            u64::MAX
        } else {
            (self.spawn_timer + dt - PARTICLE_SPAWN_PERIOD) as u64
        }
    }

    /// The trail after the step of `dt` nanoseconds that ends at `now`: it
    /// remembers `position` if there is one, and the particles that have
    /// expired leave.
    pub open spec fn updated(self, dt: u64, now: u64, position: Option<P>) -> Self {
        ParticleTrailState {
            particles: surviving_particles(self.particles, now, PARTICLE_LIFETIME),
            spawn_timer: self.timer_after(dt),
            last_known_parent_position: match position {
                Some(p) => p,
                None => self.last_known_parent_position,
            },
            emitt: self.emitt,
        }
    }
}

/// An emitting trail loses no time, short of the longest time that can be
/// told: the time on its timer and the time of the step make up the period of
/// the particle that is due, if one is, and the time that stays on the timer.
pub proof fn lemma_trail_loses_no_time<P, Q>(trail: ParticleTrailState<P, Q>, dt: u64)
    requires
        trail.emitt,
        trail.spawn_timer + dt - PARTICLE_SPAWN_PERIOD <= u64::MAX,
    ensures
        trail.spawn_timer + dt == trail.timer_after(dt) + if trail.due(dt) {
            PARTICLE_SPAWN_PERIOD as int
        } else {
            0
        },
{
}

/// The plain emitter that follows a planet.
pub struct ParticleTrail<P, Q> {
    particles: VecDeque<Particle<Q>>,
    spawn_timer: u64,
    last_known_parent_position: P,
    emitt: bool,
}

impl<P, Q> View for ParticleTrail<P, Q> {
    type V = ParticleTrailState<P, Q>;

    closed spec fn view(&self) -> ParticleTrailState<P, Q> {
        ParticleTrailState {
            particles: self.particles@,
            spawn_timer: self.spawn_timer,
            last_known_parent_position: self.last_known_parent_position,
            emitt: self.emitt,
        }
    }
}

impl<P, Q> ParticleTrail<P, Q> {
    /// A trail that emits and has no particle yet. Until the planet is seen,
    /// `position` stands for where it is.
    pub fn new(position: P) -> (trail: Self)
        ensures
            trail@ == (ParticleTrailState::<P, Q> {
                particles: Seq::empty(),
                spawn_timer: 0,
                last_known_parent_position: position,
                emitt: true,
            }),
    {
        ParticleTrail {
            particles: VecDeque::with_capacity(0),
            spawn_timer: 0,
            last_known_parent_position: position,
            emitt: true,
        }
    }

    /// Sends off a particle, stamped `now`.
    pub fn add_particle(&mut self, body: Q, now: u64)
        ensures
            final(self)@ == (ParticleTrailState {
                particles: old(self)@.particles.push(Particle { body, time_created: now }),
                ..old(self)@
            }),
    {
        self.particles.push_back(Particle { body, time_created: now });
    }

    /// Gives the particles the bodies in `moved`, in their order: what the
    /// host has made of them in this step. A particle that `moved` does not
    /// reach stays as it is.
    pub fn move_particles(&mut self, moved: Vec<Q>)
        ensures
            final(self)@ == (ParticleTrailState {
                particles: with_bodies(old(self)@.particles, moved@),
                ..old(self)@
            }),
    {
        set_bodies(&mut self.particles, moved);
    }

    /// Whether the trail is over: it has stopped and its last particle has expired.
    pub fn is_dead(&self) -> (dead: bool)
        ensures
            dead == (!self@.emitt && self@.particles.len() == 0),
    {
        !self.emitt && self.particles.len() == 0
    }

    /// How many particles there are.
    pub fn particle_count(&self) -> (n: usize)
        ensures
            n == self@.particles.len(),
    {
        self.particles.len()
    }

    /// The particle at place `k`, counted from the oldest.
    pub fn particle(&self, k: usize) -> (r: &Particle<Q>)
        requires
            k < self@.particles.len(),
        ensures
            *r == self@.particles[k as int],
    {
        &self.particles[k]
    }

    /// Where the planet was when it was last seen: where the next particle
    /// is sent off.
    pub fn last_known_parent_position(&self) -> (r: &P)
        ensures
            *r == self@.last_known_parent_position,
    {
        &self.last_known_parent_position
    }
}

impl<P, Q> Emitter<P> for ParticleTrail<P, Q> {
    open spec fn emitting(&self) -> bool {
        self@.emitt
    }

    /// Advances the trail by the step of `dt_duration` nanoseconds that ends
    /// at `now`, and returns 1 if a particle is due, else 0: the host sends it
    /// off with `add_particle`. To move the particles is the host's part too.
    fn update(&mut self, dt_duration: u64, now: u64, current_position: Option<P>) -> (due: u64)
        ensures
            final(self)@ == old(self)@.updated(dt_duration, now, current_position),
            due == if old(self)@.due(dt_duration) {
                1u64
            } else {
                0u64
            },
    {
        match current_position {
            Some(pos) => {
                self.last_known_parent_position = pos;
            },
            None => {},
        }
        crate::clock::drop_expired(&mut self.particles, now, PARTICLE_LIFETIME);
        if self.emitt {
            let total: u128 = self.spawn_timer as u128 + dt_duration as u128;
            if total >= PARTICLE_SPAWN_PERIOD as u128 {
                let left: u128 = total - PARTICLE_SPAWN_PERIOD as u128;
                self.spawn_timer = if left > u64::MAX as u128 {
                    u64::MAX
                } else {
                    left as u64
                };
                1
            } else {
                self.spawn_timer = total as u64;
                0
            }
        } else {
            0
        }
    }

    /// Makes the trail emit.
    fn start_emitting(&mut self)
        ensures
            final(self)@ == (ParticleTrailState { emitt: true, ..old(self)@ }),
    {
        self.emitt = true;
    }

    /// Makes the trail stop emitting.
    fn stop_emitting(&mut self)
        ensures
            final(self)@ == (ParticleTrailState { emitt: false, ..old(self)@ }),
    {
        self.emitt = false;
    }
}

} // verus!
