use planets::emitters::{
    Emitter, ParticleSystem, ParticleSystemParam, PARTICLE_LIFETIME, PARTICLE_SPAWN_PERIOD,
};
use planets::trails::ParticleTrail;

const MS: u64 = 1_000_000;

type Point = (f32, f32);

fn params(period: u64, lifetime: u64, stop_after: Option<u64>) -> ParticleSystemParam {
    ParticleSystemParam {
        fade: true,
        emission_period: period,
        particle_lifetime: lifetime,
        stop_after,
    }
}

#[test]
fn the_preset_for_planet_trails() {
    let p = ParticleSystemParam::planet_trail();
    assert!(p.fade);
    assert_eq!(p.emission_period, 50 * MS);
    assert_eq!(p.particle_lifetime, 700 * MS);
    assert_eq!(p.stop_after, None);
    assert_eq!(PARTICLE_SPAWN_PERIOD, 50 * MS);
    assert_eq!(PARTICLE_LIFETIME, 700 * MS);
}

#[test]
fn a_new_system_emits_and_is_empty() {
    let system: ParticleSystem<Point, u32> =
        ParticleSystem::new((1.0, 2.0), ParticleSystemParam::planet_trail());
    assert_eq!(system.particle_count(), 0);
    assert!(!system.is_dead());
    assert_eq!(*system.position(), (1.0, 2.0));
    assert_eq!(system.params(), ParticleSystemParam::planet_trail());
}

#[test]
fn one_particle_is_due_for_every_period_that_ends() {
    let mut system: ParticleSystem<Point, u32> =
        ParticleSystem::new((0.0, 0.0), params(50 * MS, 700 * MS, None));
    assert_eq!(system.update(49 * MS, 49 * MS, None), 0);
    assert_eq!(system.update(1 * MS, 50 * MS, None), 1);
    // 120 ms: two periods and 20 ms left over.
    assert_eq!(system.update(120 * MS, 170 * MS, None), 2);
    // 20 + 29 = 49 ms; then 50.
    assert_eq!(system.update(29 * MS, 199 * MS, None), 0);
    assert_eq!(system.update(1 * MS, 200 * MS, None), 1);
    assert_eq!(system.update(0, 200 * MS, None), 0);
}

#[test]
fn the_system_moves_with_its_planet() {
    let mut system: ParticleSystem<Point, u32> =
        ParticleSystem::new((0.0, 0.0), ParticleSystemParam::planet_trail());
    system.update(MS, MS, Some((3.0, 4.0)));
    assert_eq!(*system.position(), (3.0, 4.0));
    system.update(MS, 2 * MS, None);
    assert_eq!(*system.position(), (3.0, 4.0));
}

#[test]
fn particles_leave_when_their_lifetime_is_over() {
    let mut system: ParticleSystem<Point, u32> =
        ParticleSystem::new((0.0, 0.0), params(50 * MS, 100 * MS, None));
    system.add_particle(1, 0);
    system.add_particle(2, 30 * MS);
    system.add_particle(3, 60 * MS);
    assert_eq!(system.particle_count(), 3);
    system.update(0, 100 * MS - 1, None);
    assert_eq!(system.particle_count(), 3);
    system.update(0, 100 * MS, None);
    assert_eq!(system.particle_count(), 2);
    assert_eq!(system.particle(0).body, 2);
    system.update(0, 160 * MS, None);
    assert_eq!(system.particle_count(), 0);
}

#[test]
fn only_particles_at_the_front_leave() {
    let mut system: ParticleSystem<Point, u32> =
        ParticleSystem::new((0.0, 0.0), params(50 * MS, 100 * MS, None));
    // The second particle is older than the first, which has not expired.
    system.add_particle(1, 50 * MS);
    system.add_particle(2, 0);
    system.update(0, 120 * MS, None);
    assert_eq!(system.particle_count(), 2);
}

#[test]
fn a_system_stops_by_itself_when_its_time_has_come() {
    let mut system: ParticleSystem<Point, u32> =
        ParticleSystem::new((0.0, 0.0), params(10 * MS, 700 * MS, Some(100 * MS)));
    assert_eq!(system.update(60 * MS, 60 * MS, None), 6);
    system.add_particle(1, 60 * MS);
    assert!(!system.is_dead());
    // The running time reaches 100 ms: the system stops and owes nothing more.
    assert_eq!(system.update(40 * MS, 100 * MS, None), 0);
    assert!(!system.is_dead());
    assert_eq!(system.update(40 * MS, 140 * MS, None), 0);
    system.update(0, 760 * MS, None);
    assert_eq!(system.particle_count(), 0);
    assert!(system.is_dead());
}

#[test]
fn stopping_and_starting_a_system() {
    let mut system: ParticleSystem<Point, u32> =
        ParticleSystem::new((0.0, 0.0), params(10 * MS, 700 * MS, None));
    system.stop_emitting();
    assert!(system.is_dead());
    assert_eq!(system.update(100 * MS, 100 * MS, None), 0);
    system.start_emitting();
    assert!(!system.is_dead());
    // The time while it was stopped was not counted.
    assert_eq!(system.update(25 * MS, 125 * MS, None), 2);
}

#[test]
fn the_running_time_stops_at_the_longest_time() {
    let mut system: ParticleSystem<Point, u32> =
        ParticleSystem::new((0.0, 0.0), params(u64::MAX, 700 * MS, Some(u64::MAX)));
    assert_eq!(system.update(u64::MAX - 1, 0, None), 0);
    assert!(!system.is_dead());
    assert_eq!(system.update(5, 0, None), 0);
    assert!(system.is_dead());
}

#[test]
fn a_period_of_one_nanosecond_owes_a_particle_for_each() {
    let mut system: ParticleSystem<Point, u32> =
        ParticleSystem::new((0.0, 0.0), params(1, 700 * MS, None));
    assert_eq!(system.update(u64::MAX, 0, None), u64::MAX);
    assert_eq!(system.update(0, 0, None), 0);
}

#[test]
fn move_particles_gives_them_new_bodies_and_keeps_their_stamps() {
    let mut system: ParticleSystem<Point, (f32, f32)> =
        ParticleSystem::new((0.0, 0.0), ParticleSystemParam::planet_trail());
    system.add_particle((1.0, 1.0), 10);
    system.add_particle((2.0, 2.0), 20);
    system.add_particle((3.0, 3.0), 30);
    system.move_particles(vec![(1.5, 1.5), (2.5, 2.5), (3.5, 3.5)]);
    let bodies: Vec<_> = (0..3).map(|k| system.particle(k).body).collect();
    let stamps: Vec<_> = (0..3).map(|k| system.particle(k).time_created).collect();
    assert_eq!(bodies, vec![(1.5, 1.5), (2.5, 2.5), (3.5, 3.5)]);
    assert_eq!(stamps, vec![10, 20, 30]);
    // Too few bodies: the rest stay; too many: the rest are not used.
    system.move_particles(vec![(9.0, 9.0)]);
    let bodies: Vec<_> = (0..3).map(|k| system.particle(k).body).collect();
    assert_eq!(bodies, vec![(9.0, 9.0), (2.5, 2.5), (3.5, 3.5)]);
    system.move_particles(vec![(1.0, 0.0), (2.0, 0.0), (3.0, 0.0), (4.0, 0.0)]);
    let bodies: Vec<_> = (0..3).map(|k| system.particle(k).body).collect();
    assert_eq!(bodies, vec![(1.0, 0.0), (2.0, 0.0), (3.0, 0.0)]);
    assert_eq!(system.particle_count(), 3);
}

#[test]
fn what_is_left_of_a_particles_life() {
    let mut system: ParticleSystem<Point, u32> =
        ParticleSystem::new((0.0, 0.0), ParticleSystemParam::planet_trail());
    system.add_particle(1, 100 * MS);
    let p = system.particle(0);
    assert_eq!(p.remaining(100 * MS, 700 * MS), 700 * MS);
    assert_eq!(p.remaining(275 * MS, 700 * MS), 525 * MS);
    assert_eq!(p.remaining(800 * MS, 700 * MS), 0);
    assert_eq!(p.remaining(900 * MS, 700 * MS), 0);
}

#[test]
fn a_particle_trail_owes_one_particle_at_most() {
    let mut trail: ParticleTrail<Point, u32> = ParticleTrail::new((-1000.0, -1000.0));
    assert_eq!(trail.particle_count(), 0);
    assert!(!trail.is_dead());
    assert_eq!(trail.update(49 * MS, 49 * MS, None), 0);
    assert_eq!(trail.update(1 * MS, 50 * MS, None), 1);
    // 120 ms: one particle now, 70 ms kept; so one more is due at once.
    assert_eq!(trail.update(120 * MS, 170 * MS, None), 1);
    assert_eq!(trail.update(0, 170 * MS, None), 1);
    assert_eq!(trail.update(0, 170 * MS, None), 0);
    assert_eq!(trail.update(30 * MS, 200 * MS, None), 1);
}

#[test]
fn a_particle_trail_remembers_where_its_planet_was() {
    let mut trail: ParticleTrail<Point, u32> = ParticleTrail::new((-1000.0, -1000.0));
    assert_eq!(*trail.last_known_parent_position(), (-1000.0, -1000.0));
    trail.update(MS, MS, Some((5.0, 6.0)));
    trail.update(MS, 2 * MS, None);
    assert_eq!(*trail.last_known_parent_position(), (5.0, 6.0));
}

#[test]
fn a_particle_trail_drains_and_dies_once_stopped() {
    let mut trail: ParticleTrail<Point, u32> = ParticleTrail::new((0.0, 0.0));
    trail.add_particle(7, 0);
    trail.add_particle(8, 50 * MS);
    trail.stop_emitting();
    assert!(!trail.is_dead());
    assert_eq!(trail.update(700 * MS, 700 * MS, None), 0);
    assert_eq!(trail.particle_count(), 1);
    assert_eq!(trail.particle(0).body, 8);
    assert_eq!(trail.update(50 * MS, 750 * MS, None), 0);
    assert!(trail.is_dead());
    trail.start_emitting();
    assert!(!trail.is_dead());
    assert_eq!(trail.update(50 * MS, 800 * MS, None), 1);
}

#[test]
fn a_particle_trail_moves_its_particles() {
    let mut trail: ParticleTrail<Point, (f32, f32)> = ParticleTrail::new((0.0, 0.0));
    trail.add_particle((1.0, 1.0), 10);
    trail.add_particle((2.0, 2.0), 20);
    trail.move_particles(vec![(1.5, 1.0), (2.5, 2.0)]);
    assert_eq!(trail.particle(0).body, (1.5, 1.0));
    assert_eq!(trail.particle(1).body, (2.5, 2.0));
    assert_eq!(trail.particle(1).time_created, 20);
}

#[test]
fn the_timer_of_a_particle_trail_stops_at_the_longest_time() {
    let mut trail: ParticleTrail<Point, u32> = ParticleTrail::new((0.0, 0.0));
    assert_eq!(trail.update(u64::MAX, 0, None), 1);
    assert_eq!(trail.update(u64::MAX, 0, None), 1);
    assert_eq!(trail.update(0, 0, None), 1);
}
