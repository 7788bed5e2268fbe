use planets::planet::Planet;
use planets::scan::ProtectionPolicy;
use planets::tick::{Motion, Physics};
use planets::world::World;

type Point = (f32, f32);
type Vector = (f32, f32);
type Body = Planet<Point, Vector, f32>;
type TestWorld = World<Point, Vector, f32>;

const MS: u64 = 1_000_000;
const SECOND: u64 = 1_000_000_000;
const G: f32 = 0.0001;
const SCREEN: (f32, f32) = (1280.0, 860.0);

/// Newtonian physics in the plane, as a host would supply it.
struct Newton {
    teleport_on_edges: bool,
    keep_forces: bool,
}

fn newton() -> Newton {
    Newton { teleport_on_edges: false, keep_forces: false }
}

fn cube(x: f32) -> f32 {
    x * x * x
}

impl Physics<Point, Vector, f32> for Newton {
    fn are_colliding(&self, a: &Body, b: &Body) -> bool {
        let (dx, dy) = (b.position.0 - a.position.0, b.position.1 - a.position.1);
        let reach = a.radius + b.radius;
        dx.abs() <= reach && dy.abs() <= reach && dx * dx + dy * dy <= reach * reach
    }

    fn newtonian_grav(&self, a: &Body, b: &Body) -> (Vector, Vector) {
        let (dx, dy) = (b.position.0 - a.position.0, b.position.1 - a.position.1);
        let distance = (dx * dx + dy * dy).sqrt();
        let scale = G * a.mass * b.mass / cube(distance);
        let (fx, fy) = (dx * scale, dy * scale);
        (
            (a.resultant_force.0 + fx, a.resultant_force.1 + fy),
            (b.resultant_force.0 - fx, b.resultant_force.1 - fy),
        )
    }

    fn collide_planets(&self, members: &Vec<&Body>) -> Body {
        let mut mass = 0.0;
        let mut momentum = (0.0, 0.0);
        let mut weighted = (0.0, 0.0);
        let mut volume = 0.0;
        for m in members {
            mass += m.mass;
            momentum = (momentum.0 + m.mass * m.velocity.0, momentum.1 + m.mass * m.velocity.1);
            weighted = (weighted.0 + m.mass * m.position.0, weighted.1 + m.mass * m.position.1);
            volume += cube(m.radius);
        }
        Planet::new(
            0,
            (weighted.0 / mass, weighted.1 / mass),
            (momentum.0 / mass, momentum.1 / mass),
            mass,
            volume.cbrt(),
            (0.0, 0.0),
            None,
        )
    }

    fn integrate(&self, planet: &Body, dt_duration: u64) -> Motion<Point, Vector> {
        let dt = dt_duration as f32 / 1e9;
        let ax = planet.resultant_force.0 / planet.mass;
        let ay = planet.resultant_force.1 / planet.mass;
        let velocity = (planet.velocity.0 + ax * dt, planet.velocity.1 + ay * dt);
        let mut position = (planet.position.0 + velocity.0 * dt, planet.position.1 + velocity.1 * dt);
        if self.teleport_on_edges {
            let r = planet.radius;
            if position.0 < -r {
                position.0 = SCREEN.0 + r;
            } else if position.0 > SCREEN.0 + r {
                position.0 = -r;
            }
            if position.1 < -r {
                position.1 = SCREEN.1 + r;
            } else if position.1 > SCREEN.1 + r {
                position.1 = -r;
            }
        }
        let resultant_force = if self.keep_forces { planet.resultant_force } else { (0.0, 0.0) };
        Motion { position, velocity, resultant_force }
    }

    fn apart(&self, position: &Point, newest: &Point) -> bool {
        let (dx, dy) = (position.0 - newest.0, position.1 - newest.1);
        dx * dx + dy * dy > 0.1
    }
}

fn add(world: &mut TestWorld, position: Point, velocity: Vector, mass: f32, radius: f32) -> usize {
    world.add_planet(position, velocity, mass, radius, (0.0, 0.0), None, 0)
}

fn ids(world: &TestWorld) -> Vec<usize> {
    (0..world.planet_count()).map(|k| world.planet(k).id).collect()
}

fn close(a: f32, b: f32) -> bool {
    (a - b).abs() <= 1e-4 * a.abs().max(b.abs())
}

#[test]
fn two_overlapping_planets_become_one_at_their_centre_of_mass() {
    let mut world = TestWorld::new();
    add(&mut world, (100.0, 100.0), (2.0, 0.0), 10.0, 5.0);
    add(&mut world, (106.0, 100.0), (0.0, 4.0), 10.0, 5.0);
    let groups = world.tick(&newton(), 0, 0, ProtectionPolicy::AttractWhenApart).into_groups();
    assert_eq!(groups, vec![vec![0, 1]]);
    assert_eq!(world.planet_count(), 1);
    let merged = world.planet(0);
    assert_eq!(merged.id, 2);
    assert_eq!(merged.mass, 20.0);
    assert_eq!(merged.position, (103.0, 100.0));
    // Momentum (20, 40) over mass 20.
    assert_eq!(merged.velocity, (1.0, 2.0));
    assert_eq!(merged.resultant_force, (0.0, 0.0));
    assert!(!merged.has_spawn_protection());
}

#[test]
fn a_merge_conserves_mass_volume_and_momentum() {
    let mut world = TestWorld::new();
    add(&mut world, (100.0, 100.0), (3.0, -1.0), 10.0, 4.0);
    add(&mut world, (105.0, 100.0), (-2.0, 5.0), 30.0, 6.0);
    world.tick(&newton(), 0, 0, ProtectionPolicy::AttractWhenApart);
    let merged = world.planet(0);
    assert_eq!(merged.mass, 40.0);
    assert!(close(cube(merged.radius), cube(4.0) + cube(6.0)));
    assert!(close(merged.mass * merged.velocity.0, 10.0 * 3.0 + 30.0 * -2.0));
    assert!(close(merged.mass * merged.velocity.1, 10.0 * -1.0 + 30.0 * 5.0));
    assert!(close(merged.position.0, (10.0 * 100.0 + 30.0 * 105.0) / 40.0));
}

#[test]
fn a_chain_of_three_merges_into_one_planet() {
    let mut world = TestWorld::new();
    // The first touches the second and the second the third; the first and
    // the third are 16 apart with radii of 5.
    add(&mut world, (100.0, 100.0), (0.0, 0.0), 10.0, 5.0);
    add(&mut world, (108.0, 100.0), (0.0, 0.0), 10.0, 5.0);
    add(&mut world, (116.0, 100.0), (0.0, 0.0), 10.0, 5.0);
    add(&mut world, (500.0, 500.0), (0.0, 0.0), 10.0, 5.0);
    let groups = world.tick(&newton(), 0, 0, ProtectionPolicy::AttractWhenApart).into_groups();
    assert_eq!(groups, vec![vec![0, 1, 2]]);
    assert_eq!(ids(&world), vec![3, 4]);
    assert_eq!(world.planet(1).mass, 30.0);
    assert_eq!(world.planet(1).position, (108.0, 100.0));
}

#[test]
fn two_collisions_far_apart_give_two_planets() {
    let mut world = TestWorld::new();
    add(&mut world, (100.0, 100.0), (0.0, 0.0), 10.0, 5.0);
    add(&mut world, (600.0, 600.0), (0.0, 0.0), 20.0, 5.0);
    add(&mut world, (604.0, 600.0), (0.0, 0.0), 20.0, 5.0);
    add(&mut world, (104.0, 100.0), (0.0, 0.0), 10.0, 5.0);
    let groups = world.tick(&newton(), 0, 0, ProtectionPolicy::AttractWhenApart).into_groups();
    assert_eq!(groups, vec![vec![0, 3], vec![1, 2]]);
    assert_eq!(ids(&world), vec![4, 5]);
    assert_eq!(world.planet(0).mass, 20.0);
    assert_eq!(world.planet(1).mass, 40.0);
    assert_eq!(world.planet_id_count(), 6);
}

#[test]
fn gravity_changes_the_light_planet_more_than_the_heavy_one() {
    let mut world = TestWorld::new();
    add(&mut world, (0.0, 0.0), (0.0, 0.0), 10.0, 1.0);
    add(&mut world, (100.0, 0.0), (0.0, 0.0), 1000.0, 1.0);
    let groups = world.tick(&newton(), SECOND, SECOND, ProtectionPolicy::AttractWhenApart);
    assert_eq!(groups.len(), 0);
    let light = world.planet(0).velocity;
    let heavy = world.planet(1).velocity;
    // F = G * 10 * 1000 / 100^2 = 0.0001; dv = F * dt / m.
    assert!(close(light.0, 0.00001));
    assert!(close(heavy.0, -0.0000001));
    assert!(close(light.0 / -heavy.0, 100.0));
    assert_eq!((light.1, heavy.1), (0.0, 0.0));
    // The light one has moved by its new speed times one second.
    assert_eq!(world.planet(0).position, (light.0, 0.0));
}

#[test]
fn the_forces_on_a_pair_are_equal_and_opposite() {
    let mut world = TestWorld::new();
    add(&mut world, (100.0, 100.0), (0.0, 0.0), 10.0, 1.0);
    add(&mut world, (130.0, 140.0), (0.0, 0.0), 50.0, 1.0);
    let host = Newton { teleport_on_edges: false, keep_forces: true };
    world.tick(&host, 0, 0, ProtectionPolicy::AttractWhenApart);
    let on_first = world.planet(0).resultant_force;
    let on_second = world.planet(1).resultant_force;
    assert_eq!(on_first.0, -on_second.0);
    assert_eq!(on_first.1, -on_second.1);
    // Distance 50: |F| = G * 10 * 50 / 2500.
    let size = (on_first.0 * on_first.0 + on_first.1 * on_first.1).sqrt();
    assert!(close(size, 0.00002));
    assert!(on_first.0 > 0.0 && on_first.1 > 0.0);
}

#[test]
fn every_pair_pulls_once() {
    let mut world = TestWorld::new();
    add(&mut world, (0.0, 0.0), (0.0, 0.0), 10.0, 1.0);
    add(&mut world, (100.0, 0.0), (0.0, 0.0), 10.0, 1.0);
    add(&mut world, (200.0, 0.0), (0.0, 0.0), 10.0, 1.0);
    let host = Newton { teleport_on_edges: false, keep_forces: true };
    world.tick(&host, 0, 0, ProtectionPolicy::AttractWhenApart);
    let unit = G * 100.0 / 10000.0;
    // The one in the middle is pulled both ways; the outer ones by both others.
    assert!(close(world.planet(0).resultant_force.0, unit + unit / 4.0));
    assert!(world.planet(1).resultant_force.0.abs() < 1e-9);
    assert!(close(world.planet(2).resultant_force.0, -(unit + unit / 4.0)));
}

#[test]
fn a_protected_planet_that_overlaps_does_not_merge_and_is_not_pulled() {
    let mut world = TestWorld::new();
    world.add_planet((100.0, 100.0), (1.0, 0.0), 10.0, 5.0, (0.0, 0.0), Some(500 * MS), 0);
    add(&mut world, (104.0, 100.0), (0.0, 2.0), 10.0, 5.0);
    let groups = world.tick(&newton(), 16 * MS, 16 * MS, ProtectionPolicy::AttractWhenApart);
    assert_eq!(groups.len(), 0);
    assert_eq!(ids(&world), vec![0, 1]);
    assert_eq!(world.planet(0).velocity, (1.0, 0.0));
    assert_eq!(world.planet(1).velocity, (0.0, 2.0));
    assert_eq!(world.planet(0).spawn_protection_timer, Some(484 * MS));
    assert_eq!(world.planet(1).spawn_protection_timer, None);
}

#[test]
fn once_the_protection_is_over_the_planets_merge() {
    let mut world = TestWorld::new();
    world.add_planet((100.0, 100.0), (0.0, 0.0), 10.0, 5.0, (0.0, 0.0), Some(20 * MS), 0);
    add(&mut world, (104.0, 100.0), (0.0, 0.0), 10.0, 5.0);
    world.tick(&newton(), 16 * MS, 16 * MS, ProtectionPolicy::AttractWhenApart);
    assert_eq!(world.planet_count(), 2);
    world.tick(&newton(), 16 * MS, 32 * MS, ProtectionPolicy::AttractWhenApart);
    assert_eq!(world.planet_count(), 2);
    assert!(!world.planet(0).has_spawn_protection());
    world.tick(&newton(), 16 * MS, 48 * MS, ProtectionPolicy::AttractWhenApart);
    assert_eq!(ids(&world), vec![2]);
}

#[test]
fn the_policy_decides_whether_a_protected_planet_apart_is_pulled() {
    let host = Newton { teleport_on_edges: false, keep_forces: true };
    let mut world = TestWorld::new();
    world.add_planet((100.0, 100.0), (0.0, 0.0), 10.0, 1.0, (0.0, 0.0), Some(SECOND), 0);
    add(&mut world, (200.0, 100.0), (0.0, 0.0), 10.0, 1.0);
    world.tick(&host, 0, 0, ProtectionPolicy::NeverAttract);
    assert_eq!(world.planet(0).resultant_force, (0.0, 0.0));
    assert_eq!(world.planet(1).resultant_force, (0.0, 0.0));
    world.tick(&host, 0, 0, ProtectionPolicy::AttractWhenApart);
    assert!(world.planet(0).resultant_force.0 > 0.0);
    assert!(world.planet(1).resultant_force.0 < 0.0);
}

#[test]
fn a_step_of_no_time_moves_nothing() {
    let mut world = TestWorld::new();
    add(&mut world, (100.0, 100.0), (3.0, -4.0), 10.0, 1.0);
    add(&mut world, (300.0, 250.0), (-1.0, 2.0), 1000.0, 1.0);
    world.add_planet((500.0, 500.0), (7.0, 7.0), 10.0, 1.0, (0.0, 0.0), Some(5 * MS), 0);
    world.tick(&newton(), 0, 0, ProtectionPolicy::AttractWhenApart);
    assert_eq!(world.planet(0).position, (100.0, 100.0));
    assert_eq!(world.planet(0).velocity, (3.0, -4.0));
    assert_eq!(world.planet(1).position, (300.0, 250.0));
    assert_eq!(world.planet(1).velocity, (-1.0, 2.0));
    assert_eq!(world.planet(2).position, (500.0, 500.0));
    assert_eq!(world.planet(2).spawn_protection_timer, Some(5 * MS));
    assert_eq!(world.node_count(), 3);
}

#[test]
fn a_planet_that_leaves_on_one_side_comes_back_on_the_other() {
    let host = Newton { teleport_on_edges: true, keep_forces: false };
    let mut world = TestWorld::new();
    add(&mut world, (1284.0, 400.0), (2.0, 0.0), 10.0, 5.0);
    add(&mut world, (640.0, -4.0), (0.0, -2.0), 10.0, 5.0);
    // After one second the first is at x = 1286 > 1280 + 5, the second at y = -6 < -5.
    world.tick(&host, SECOND, SECOND, ProtectionPolicy::AttractWhenApart);
    assert_eq!(world.planet(0).position.0, -5.0);
    assert!(close(world.planet(0).position.1, 400.0));
    assert_eq!(world.planet(1).position.1, 865.0);
}

#[test]
fn the_trail_of_a_moving_planet_grows_and_that_of_a_merged_one_drains() {
    let mut world = TestWorld::new();
    add(&mut world, (100.0, 100.0), (50.0, 0.0), 10.0, 5.0);
    let mut now = 0;
    let mut before = world.trail(0).trail.node_count();
    for _ in 0..20 {
        now += 25 * MS;
        world.tick(&newton(), 25 * MS, now, ProtectionPolicy::AttractWhenApart);
        let count = world.trail(0).trail.node_count();
        assert!(count >= before);
        before = count;
    }
    // A node every 25 ms, 1.25 units from the last.
    assert_eq!(before, 21);
    world.remove_planet(0);
    for _ in 0..27 {
        now += 25 * MS;
        world.tick(&newton(), 25 * MS, now, ProtectionPolicy::AttractWhenApart);
        let count = world.trail(0).trail.node_count();
        assert!(count <= before);
        before = count;
    }
    assert!(before > 0);
    now += 25 * MS;
    world.tick(&newton(), 25 * MS, now, ProtectionPolicy::AttractWhenApart);
    assert_eq!(world.trail(0).trail.node_count(), 0);
    // The trail that is over leaves at the beginning of the next step.
    assert_eq!(world.trail_count(), 1);
    world.tick(&newton(), 25 * MS, now, ProtectionPolicy::AttractWhenApart);
    assert_eq!(world.trail_count(), 0);
}

#[test]
fn a_planet_at_rest_gets_no_further_node() {
    let mut world = TestWorld::new();
    add(&mut world, (100.0, 100.0), (0.0, 0.0), 10.0, 5.0);
    let mut now = 0;
    for _ in 0..10 {
        now += 25 * MS;
        world.tick(&newton(), 25 * MS, now, ProtectionPolicy::AttractWhenApart);
    }
    assert_eq!(world.trail(0).trail.node_count(), 1);
}

#[test]
fn a_planet_at_rest_keeps_a_trail_when_its_node_expires() {
    let mut world = TestWorld::new();
    add(&mut world, (100.0, 100.0), (0.0, 0.0), 10.0, 5.0);
    let mut now = 0;
    for _ in 0..27 {
        now += 25 * MS;
        world.tick(&newton(), 25 * MS, now, ProtectionPolicy::AttractWhenApart);
        assert_eq!(world.trail(0).trail.node_count(), 1);
        assert_eq!(world.trail(0).trail.node(0).time_created, 0);
    }
    // At 700 ms the first node expires, and the next one takes its place.
    now += 25 * MS;
    world.tick(&newton(), 25 * MS, now, ProtectionPolicy::AttractWhenApart);
    assert_eq!(world.trail(0).trail.node_count(), 1);
    assert_eq!(world.trail(0).trail.node(0).time_created, 700 * MS);
    assert_eq!(world.trail(0).trail.node(0).pos, (100.0, 100.0));
}

#[test]
fn a_merged_planet_gets_a_trail_of_its_own() {
    let mut world = TestWorld::new();
    add(&mut world, (100.0, 100.0), (0.0, 0.0), 10.0, 5.0);
    add(&mut world, (104.0, 100.0), (0.0, 0.0), 10.0, 5.0);
    world.tick(&newton(), 16 * MS, 16 * MS, ProtectionPolicy::AttractWhenApart);
    assert_eq!(world.trail_count(), 3);
    assert_eq!(world.trail(2).id, 2);
    assert!(world.trail(2).trail.has_parent());
    assert_eq!(world.trail(2).trail.node(0).pos, (102.0, 100.0));
    assert_eq!(world.trail(2).trail.node(0).time_created, 16 * MS);
    assert!(!world.trail(0).trail.has_parent());
    assert!(!world.trail(1).trail.has_parent());
}

#[test]
fn an_empty_world_steps() {
    let mut world = TestWorld::new();
    let groups = world.tick(&newton(), 16 * MS, 16 * MS, ProtectionPolicy::AttractWhenApart);
    assert_eq!(groups.len(), 0);
    assert_eq!(world.planet_count(), 0);
}
