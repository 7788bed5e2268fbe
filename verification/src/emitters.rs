//! Emitters: trails made of particles that the host sends off from where a
//! planet is. The library counts the time: when particles are due, how many,
//! and when each has had its time. What a particle is, is the host's matter:
//! an emitter keeps particles of any type `Q` at a position of any type `P`.

use crate::clock::{age, age_at, Stamped};
use std::collections::VecDeque;
use vstd::prelude::*;

verus! {

/// The time after which a particle of a `ParticleTrail` leaves it, in nanoseconds.
pub const PARTICLE_LIFETIME: u64 = 700_000_000;

/// The time between two particles of a `ParticleTrail`, in nanoseconds.
pub const PARTICLE_SPAWN_PERIOD: u64 = 50_000_000;

/// A particle, and when it was sent off.
pub struct Particle<Q> {
    pub body: Q,
    pub time_created: u64,
}

impl<Q> Particle<Q> {
    /// What is left of a lifetime of `lifetime` nanoseconds at `now`.
    pub open spec fn spec_remaining(&self, now: u64, lifetime: u64) -> nat {
        if age_at(now, self.time_created) >= lifetime {
            0
        } else {
            (lifetime - age_at(now, self.time_created)) as nat
        }
    }

    /// What is left at `now` of the particle's lifetime of `lifetime`
    /// nanoseconds: all of it for a particle sent off just now, zero for one
    /// that has expired.
    pub fn remaining(&self, now: u64, lifetime: u64) -> (left: u64)
        ensures
            left == self.spec_remaining(now, lifetime),
    {
        let a = age(now, self.time_created);
        if a >= lifetime {
            0
        } else {
            lifetime - a
        }
    }
}

impl<Q> Stamped for Particle<Q> {
    open spec fn stamp(&self) -> u64 {
        self.time_created
    }

    fn made_at(&self) -> (t: u64) {
        self.time_created
    }
}

/// The particles that are kept at `now`: all from the first that has not
/// outlived `lifetime`.
pub open spec fn surviving_particles<Q>(particles: Seq<Particle<Q>>, now: u64, lifetime: u64) -> Seq<
    Particle<Q>,
> {
    crate::clock::surviving(particles, now, lifetime)
}

/// The particles with the bodies in `bodies`, in their order, and with the
/// stamps they had. A particle that `bodies` does not reach stays as it is.
pub open spec fn with_bodies<Q>(particles: Seq<Particle<Q>>, bodies: Seq<Q>) -> Seq<Particle<Q>> {
    Seq::new(
        particles.len(),
        |k: int|
            if k < bodies.len() {
                Particle { body: bodies[k], time_created: particles[k].time_created }
            } else {
                particles[k]
            },
    )
}

/// Gives the particles the bodies in `moved`, in their order.
pub(crate) fn set_bodies<Q>(particles: &mut VecDeque<Particle<Q>>, moved: Vec<Q>)
    ensures
        final(particles)@ == with_bodies(old(particles)@, moved@),
{
    let ghost before = particles@;
    let n = particles.len();
    let mut done: usize = 0;
    assert(particles@ =~= before.skip(0) + with_bodies(before, moved@).take(0));
    for body in it: moved
        invariant
            it.seq() == moved@,
            n == before.len(),
            done == if it.index() < n {
                it.index()
            } else {
                n as int
            },
            particles@ == before.skip(done as int) + with_bodies(before, moved@).take(done as int),
    {
        if done < n {
            let particle = particles.pop_front().unwrap();
            particles.push_back(Particle { body, time_created: particle.time_created });
            assert(particles@ =~= before.skip(done + 1) + with_bodies(before, moved@).take(
                done + 1,
            ));
            done += 1;
        }
    }
    while done < n
        invariant
            n == before.len(),
            done <= n,
            done >= moved@.len() || done == n,
            particles@ == before.skip(done as int) + with_bodies(before, moved@).take(done as int),
        decreases n - done,
    {
        let particle = particles.pop_front().unwrap();
        particles.push_back(particle);
        assert(particles@ =~= before.skip(done + 1) + with_bodies(before, moved@).take(done + 1));
        done += 1;
    }
    assert(particles@ =~= with_bodies(before, moved@));
}

/// What the host can do with any emitter.
pub trait Emitter<P> {
    /// Whether the emitter is emitting.
    spec fn emitting(&self) -> bool;

    /// Advances the emitter by the step of `dt_duration` nanoseconds that
    /// ends at `now`, with the position of its planet if there is one, and
    /// returns how many particles are due: the host sends them off. An
    /// emitter that does not emit owes none.
    fn update(&mut self, dt_duration: u64, now: u64, current_position: Option<P>) -> (due: u64)
        ensures
            !old(self).emitting() ==> due == 0,
    ;

    /// Makes the emitter emit.
    fn start_emitting(&mut self)
        ensures
            final(self).emitting(),
    ;

    /// Makes the emitter stop emitting.
    fn stop_emitting(&mut self)
        ensures
            !final(self).emitting(),
    ;
}

/// How an emitter behaves.
#[derive(Clone, Copy, PartialEq, Eq, Debug, Structural)]
pub struct ParticleSystemParam {
    /// Whether the particles fade while they age.
    pub fade: bool,
    /// The time between two particles, in nanoseconds.
    pub emission_period: u64,
    /// The time after which a particle leaves, in nanoseconds.
    pub particle_lifetime: u64,
    /// The time after which the emitter stops by itself, if it does.
    pub stop_after: Option<u64>,
}

impl ParticleSystemParam {
    /// The behaviour of an emitter that follows a planet.
    pub fn planet_trail() -> (params: Self)
        ensures
            params == (ParticleSystemParam {
                fade: true,
                emission_period: 50_000_000,
                particle_lifetime: 700_000_000,
                stop_after: None,
            }),
    {
        ParticleSystemParam {
            fade: true,
            emission_period: 50_000_000,
            particle_lifetime: 700_000_000,
            stop_after: None,
        }
    }
}

/// What a particle system holds, as mathematics sees it.
pub ghost struct SystemState<P, Q> {
    /// The particles, oldest first.
    pub particles: Seq<Particle<Q>>,
    /// The time that has passed towards the next particle.
    pub spawn_timer: u64,
    /// Where the particles are sent off.
    pub position: P,
    /// Whether the system is emitting.
    pub emitt: bool,
    pub params: ParticleSystemParam,
    /// The time for which the system has been running.
    pub stop_timer: u64,
}

/// The sum of two times, or the longest time that can be told where the sum
/// is longer still.
pub open spec fn capped_sum(a: u64, b: u64) -> u64 {
    if a + b > u64::MAX {
        u64::MAX
    } else {
        (a + b) as u64
    }
}

impl<P, Q> SystemState<P, Q> {
    /// The system has no period of zero, and less than a period is on its timer.
    pub open spec fn well_formed(self) -> bool {
        self.spawn_timer < self.params.emission_period
    }

    /// Whether the system still emits once `dt` more nanoseconds have run:
    /// it does if it did and its time to stop has not come.
    pub open spec fn emits_after(self, dt: u64) -> bool {
        self.emitt && match self.params.stop_after {
            Some(limit) => capped_sum(self.stop_timer, dt) < limit,
            None => true,
        }
    }

    /// How many particles are due in a step of `dt` nanoseconds: one for
    /// every period that ends in it, and none from a system that has stopped.
    pub open spec fn due(self, dt: u64) -> nat {
        if self.emits_after(dt) {
            ((self.spawn_timer + dt) / (self.params.emission_period as int)) as nat
        } else {
            0
        }
    }

    /// The system after the step of `dt` nanoseconds that ends at `now`. It
    /// moves to `position` if there is one; the particles that have expired
    /// leave; the running time grows, and the system stops when its time has
    /// come; the timer keeps what is left over of the periods that have ended.
    pub open spec fn updated(self, dt: u64, now: u64, position: Option<P>) -> Self {
        SystemState {
            particles: surviving_particles(self.particles, now, self.params.particle_lifetime),
            spawn_timer: if self.emits_after(dt) {
                ((self.spawn_timer + dt) % (self.params.emission_period as int)) as u64
            } else {
                self.spawn_timer
            },
            position: match position {
                Some(p) => p,
                None => self.position,
            },
            emitt: self.emits_after(dt),
            params: self.params,
            stop_timer: capped_sum(self.stop_timer, dt),
        }
    }
}

/// An emitter with a behaviour of its own.
pub struct ParticleSystem<P, Q> {
    particles: VecDeque<Particle<Q>>,
    spawn_timer: u64,
    position: P,
    emitt: bool,
    params: ParticleSystemParam,
    stop_timer: u64,
}

impl<P, Q> View for ParticleSystem<P, Q> {
    type V = SystemState<P, Q>;

    closed spec fn view(&self) -> SystemState<P, Q> {
        SystemState {
            particles: self.particles@,
            spawn_timer: self.spawn_timer,
            position: self.position,
            emitt: self.emitt,
            params: self.params,
            stop_timer: self.stop_timer,
        }
    }
}

impl<P, Q> ParticleSystem<P, Q> {
    #[verifier::type_invariant]
    spec fn inv(&self) -> bool {
        self@.well_formed()
    }

    /// An emitter at `position` that behaves as `params` say. It emits, and
    /// has no particle yet.
    pub fn new(position: P, params: ParticleSystemParam) -> (system: Self)
        requires
            params.emission_period > 0,
        ensures
            system@ == (SystemState::<P, Q> {
                particles: Seq::empty(),
                spawn_timer: 0,
                position,
                emitt: true,
                params,
                stop_timer: 0,
            }),
    {
        ParticleSystem {
            particles: VecDeque::with_capacity(0),
            spawn_timer: 0,
            position,
            emitt: true,
            params,
            stop_timer: 0,
        }
    }

    /// Sends off a particle, stamped `now`.
    pub fn add_particle(&mut self, body: Q, now: u64)
        ensures
            final(self)@ == (SystemState {
                particles: old(self)@.particles.push(Particle { body, time_created: now }),
                ..old(self)@
            }),
    {
        proof {
            use_type_invariant(&*self);
        }
        let mut particles: VecDeque<Particle<Q>> = VecDeque::new();
        core::mem::swap(&mut self.particles, &mut particles);
        particles.push_back(Particle { body, time_created: now });
        core::mem::swap(&mut self.particles, &mut particles);
    }

    /// Gives the particles the bodies in `moved`, in their order: what the
    /// host has made of them in this step. A particle that `moved` does not
    /// reach stays as it is.
    pub fn move_particles(&mut self, moved: Vec<Q>)
        ensures
            final(self)@ == (SystemState {
                particles: with_bodies(old(self)@.particles, moved@),
                ..old(self)@
            }),
    {
        proof {
            use_type_invariant(&*self);
        }
        let mut particles: VecDeque<Particle<Q>> = VecDeque::new();
        core::mem::swap(&mut self.particles, &mut particles);
        set_bodies(&mut particles, moved);
        core::mem::swap(&mut self.particles, &mut particles);
    }

    /// Whether the system is over: it has stopped and its last particle has expired.
    pub fn is_dead(&self) -> (dead: bool)
        ensures
            dead == (!self@.emitt && self@.particles.len() == 0),
    {
        !self.emitt && self.particles.len() == 0
    }

    /// How many particles there are.
    pub fn particle_count(&self) -> (n: usize)
        ensures
            n == self@.particles.len(),
    {
        self.particles.len()
    }

    /// The particle at place `k`, counted from the oldest.
    pub fn particle(&self, k: usize) -> (r: &Particle<Q>)
        requires
            k < self@.particles.len(),
        ensures
            *r == self@.particles[k as int],
    {
        &self.particles[k]
    }

    /// Where the particles are sent off.
    pub fn position(&self) -> (r: &P)
        ensures
            *r == self@.position,
    {
        &self.position
    }

    /// How the system behaves.
    pub fn params(&self) -> (r: ParticleSystemParam)
        ensures
            r == self@.params,
            r.emission_period > 0,
    {
        proof {
            use_type_invariant(self);
        }
        self.params
    }
}

impl<P, Q> Emitter<P> for ParticleSystem<P, Q> {
    open spec fn emitting(&self) -> bool {
        self@.emitt
    }

    /// Advances the system by the step of `dt_duration` nanoseconds that ends
    /// at `now`, and returns how many particles are due: the host sends them
    /// off with `add_particle`. To move the particles is the host's part too.
    fn update(&mut self, dt_duration: u64, now: u64, updated_position: Option<P>) -> (due: u64)
        ensures
            final(self)@ == old(self)@.updated(dt_duration, now, updated_position),
            due == old(self)@.due(dt_duration),
            final(self)@.well_formed(),
    {
        proof {
            use_type_invariant(&*self);
        }
        match updated_position {
            Some(pos) => {
                self.position = pos;
            },
            None => {},
        }
        let mut particles: VecDeque<Particle<Q>> = VecDeque::new();
        core::mem::swap(&mut self.particles, &mut particles);
        crate::clock::drop_expired(&mut particles, now, self.params.particle_lifetime);
        core::mem::swap(&mut self.particles, &mut particles);
        let run: u128 = self.stop_timer as u128 + dt_duration as u128;
        self.stop_timer = if run > u64::MAX as u128 {
            u64::MAX
        } else {
            run as u64
        };
        match self.params.stop_after {
            Some(stop_after) => {
                if self.stop_timer >= stop_after {
                    self.emitt = false;
                }
            },
            None => {},
        }
        if self.emitt {
            let period: u128 = self.params.emission_period as u128;
            let total: u128 = self.spawn_timer as u128 + dt_duration as u128;
            let rounds: u128 = total / period;
            proof {
                lemma_rounds_fit(self.spawn_timer as int, dt_duration as int, period as int);
            }
            self.spawn_timer = (total % period) as u64;
            rounds as u64
        } else {
            0
        }
    }

    /// Makes the system emit.
    fn start_emitting(&mut self)
        ensures
            final(self)@ == (SystemState { emitt: true, ..old(self)@ }),
    {
        proof {
            use_type_invariant(&*self);
        }
        self.emitt = true;
    }

    /// Makes the system stop emitting.
    fn stop_emitting(&mut self)
        ensures
            final(self)@ == (SystemState { emitt: false, ..old(self)@ }),
    {
        proof {
            use_type_invariant(&*self);
        }
        self.emitt = false;
    }
}

/// An emitting system loses no time: the time on its timer and the time of
/// the step make up the periods of the particles that are due and the time
/// that stays on the timer, which is less than a period.
pub proof fn lemma_system_loses_no_time<P, Q>(system: SystemState<P, Q>, dt: u64, now: u64)
    requires
        system.well_formed(),
        system.emits_after(dt),
    ensures
        system.spawn_timer + dt == system.due(dt) * system.params.emission_period
            + system.updated(dt, now, None).spawn_timer,
        system.updated(dt, now, None).well_formed(),
        system.due(dt) <= dt,
{
    let period = system.params.emission_period as int;
    lemma_rounds_fit(system.spawn_timer as int, dt as int, period);
    vstd::arithmetic::div_mod::lemma_fundamental_div_mod(system.spawn_timer + dt, period);
    assert(period * ((system.spawn_timer + dt) / period) == ((system.spawn_timer + dt) / period)
        * period) by (nonlinear_arith);
}

/// With less than a period on the timer, no more periods end in a step than
/// the step has nanoseconds.
proof fn lemma_rounds_fit(timer: int, dt: int, period: int)
    requires
        0 <= timer < period,
        0 <= dt,
    ensures
        0 <= (timer + dt) / period <= dt,
        0 <= (timer + dt) % period < period,
{
    vstd::arithmetic::div_mod::lemma_fundamental_div_mod(timer + dt, period);
    vstd::arithmetic::div_mod::lemma_mod_pos_bound(timer + dt, period);
    let q = (timer + dt) / period;
    assert(q <= dt) by (nonlinear_arith)
        requires
            period * q + (timer + dt) % period == timer + dt,
            0 <= (timer + dt) % period,
            0 <= timer < period,
            0 <= dt,
    ;
    assert(q >= 0) by (nonlinear_arith)
        requires
            period * q + (timer + dt) % period == timer + dt,
            (timer + dt) % period < period,
            0 <= timer < period,
            0 <= dt,
    ;
}

} // verus!
