//! One step of the simulation, in its fixed order: the trails that are over
//! leave; every pair of planets attracts or collides; the groups of collided
//! planets merge; the planets that are left move; the trails follow them.
//!
//! What the planets do to each other is physics, and the host supplies it.
//! The step decides when the host is asked, about which planets, and what
//! becomes of the answers.

use crate::grouping::{well_grouped, CollisionGroups};
use crate::planet::Planet;
use crate::scan::{drawn_from, PairAction, ProtectionPolicy, ScanState};
use crate::trail::TrailState;
use crate::world::{trail_alive, ungrouped, World, WorldState};
use vstd::prelude::*;

verus! {

/// Where a planet is after a step, how it moves, and the force on it.
pub struct Motion<P, V> {
    pub position: P,
    pub velocity: V,
    pub resultant_force: V,
}

/// The planets that the references stand for.
pub open spec fn planets_of<P, V, S>(members: Seq<&Planet<P, V, S>>) -> Seq<Planet<P, V, S>> {
    members.map_values(|member: &Planet<P, V, S>| *member)
}

/// The physics of the planets, as the host computes it.
///
/// Nothing is taken on trust of a host: no method promises anything. What
/// the step has made of the host's answers is stated over the answers that
/// the host has in fact given (`says_overlap` and the like).
pub trait Physics<P, V, S> {
    /// Whether the two planets overlap.
    fn are_colliding(&self, a: &Planet<P, V, S>, b: &Planet<P, V, S>) -> bool;

    /// The forces on `a` and on `b` once their pull on each other is added
    /// to the forces that were on them. The host is asked only about two
    /// planets of which it has said that they do not overlap.
    fn newtonian_grav(&self, a: &Planet<P, V, S>, b: &Planet<P, V, S>) -> (V, V)
        requires
            call_ensures(Self::are_colliding, (self, a, b), false),
    ;

    /// The planet that `members`, which are two or more, merge into. Its
    /// number and its spawn protection do not matter: the world gives it the
    /// next number and no protection.
    fn collide_planets(&self, members: &Vec<&Planet<P, V, S>>) -> Planet<P, V, S>
        requires
            members@.len() >= 2,
    ;

    /// The motion of `planet` after `dt_duration` nanoseconds under the force
    /// that is on it.
    fn integrate(&self, planet: &Planet<P, V, S>, dt_duration: u64) -> Motion<P, V>;

    /// Whether a planet at `position` is far enough from the `newest` node
    /// of its trail for another node.
    fn apart(&self, position: &P, newest: &P) -> bool;
}

/// The planet with the motion given.
pub open spec fn with_motion<P, V, S>(planet: Planet<P, V, S>, motion: Motion<P, V>) -> Planet<
    P,
    V,
    S,
> {
    Planet {
        position: motion.position,
        velocity: motion.velocity,
        resultant_force: motion.resultant_force,
        ..planet
    }
}

/// The host has said of the two planets whether they overlap.
pub open spec fn says_overlap<P, V, S, H: Physics<P, V, S>>(
    host: &H,
    a: Planet<P, V, S>,
    b: Planet<P, V, S>,
    overlap: bool,
) -> bool {
    call_ensures(H::are_colliding, (host, &a, &b), overlap)
}

/// The host has named `forces` for the forces on the two planets once their
/// pull on each other is added.
pub open spec fn says_pull<P, V, S, H: Physics<P, V, S>>(
    host: &H,
    a: Planet<P, V, S>,
    b: Planet<P, V, S>,
    forces: (V, V),
) -> bool {
    call_ensures(H::newtonian_grav, (host, &a, &b), forces)
}

/// The host, given exactly `members` in this order, has named `body` for
/// the planet that they merge into.
pub open spec fn says_merge<P, V, S, H: Physics<P, V, S>>(
    host: &H,
    members: Seq<Planet<P, V, S>>,
    body: Planet<P, V, S>,
) -> bool {
    exists|given: Vec<&Planet<P, V, S>>|
        planets_of(given@) == members && #[trigger] call_ensures(
            H::collide_planets,
            (host, &given),
            body,
        )
}

/// The host has named `motion` for the motion of `planet` after `dt` nanoseconds.
pub open spec fn says_motion<P, V, S, H: Physics<P, V, S>>(
    host: &H,
    planet: Planet<P, V, S>,
    dt: u64,
    motion: Motion<P, V>,
) -> bool {
    call_ensures(H::integrate, (host, &planet, dt), motion)
}

/// The host has said whether a planet at `position` is far enough from the
/// node at `newest`.
pub open spec fn says_apart<P, V, S, H: Physics<P, V, S>>(
    host: &H,
    position: P,
    newest: P,
    far: bool,
) -> bool {
    call_ensures(H::apart, (host, &position, &newest), far)
}

/// The planets after the pair that comes next in the pass has been decided
/// with the answer `overlap`: where the two attract each other, the forces
/// on them are `forces`; else nothing changes.
pub open spec fn after_pair<P, V, S>(
    planets: Seq<Planet<P, V, S>>,
    scan: ScanState,
    overlap: bool,
    forces: (V, V),
) -> Seq<Planet<P, V, S>> {
    let first = scan.first as int;
    let second = scan.second as int;
    if scan.action(overlap) == PairAction::Attract {
        planets.update(first, Planet { resultant_force: forces.0, ..planets[first] }).update(
            second,
            Planet { resultant_force: forces.1, ..planets[second] },
        )
    } else {
        planets
    }
}

/// The host has given the answers by which the pair that comes next in the
/// pass is decided: `overlap` when asked whether the two overlap, and, where
/// the two attract each other, `forces` when asked for the forces on them.
pub open spec fn pair_answered<P, V, S, H: Physics<P, V, S>>(
    host: &H,
    planets: Seq<Planet<P, V, S>>,
    scan: ScanState,
    overlap: bool,
    forces: (V, V),
) -> bool {
    let a = planets[scan.first as int];
    let b = planets[scan.second as int];
    &&& says_overlap(host, a, b, overlap)
    &&& scan.action(overlap) == PairAction::Attract ==> says_pull(host, a, b, forces)
}

/// From `planets` and `scan`, the pass reaches `end_planets` and `end_scan`
/// at its end: every pair from the one that comes next to the last is
/// decided by what the host has said of the two as they then are, one pair
/// after the other, and where two attract each other the forces on them are
/// those that the host has named.
pub open spec fn pass_reaches<P, V, S, H: Physics<P, V, S>>(
    host: &H,
    planets: Seq<Planet<P, V, S>>,
    scan: ScanState,
    end_planets: Seq<Planet<P, V, S>>,
    end_scan: ScanState,
) -> bool
    decreases scan.bodies.len() - scan.first, scan.bodies.len() - scan.second,
{
    if scan.active() {
        exists|overlap: bool, forces: (V, V)|
            {
                &&& #[trigger] pair_answered(host, planets, scan, overlap, forces)
                &&& pass_reaches(
                    host,
                    after_pair(planets, scan, overlap, forces),
                    scan.decided(overlap),
                    end_planets,
                    end_scan,
                )
            }
    } else {
        planets == end_planets && scan == end_scan
    }
}

/// A pass that reaches its end from after a pair reaches it from before the
/// pair, where the host has given the answers by which the pair was decided.
pub proof fn lemma_pass_goes_on<P, V, S, H: Physics<P, V, S>>(
    host: &H,
    planets: Seq<Planet<P, V, S>>,
    scan: ScanState,
    overlap: bool,
    forces: (V, V),
    end_planets: Seq<Planet<P, V, S>>,
    end_scan: ScanState,
)
    requires
        scan.active(),
        pair_answered(host, planets, scan, overlap, forces),
        pass_reaches(
            host,
            after_pair(planets, scan, overlap, forces),
            scan.decided(overlap),
            end_planets,
            end_scan,
        ),
    ensures
        pass_reaches(host, planets, scan, end_planets, end_scan),
{
}

impl<P, V, S> WorldState<P, V, S> {
    /// The pass over the pairs of the planets at its beginning.
    pub open spec fn start_scan(self, policy: ProtectionPolicy) -> ScanState {
        ScanState { bodies: self.scan_bodies(), first: 0, second: 1, groups: Seq::empty(), policy }
    }

    /// The planets numbered in `group`, in the order of the group.
    pub open spec fn group_members(self, group: Seq<usize>) -> Seq<Planet<P, V, S>> {
        group.map_values(|id: usize| self.planets[self.index_of(id)])
    }

    /// The world with every planet in the motion of `motions` that stands at
    /// its place.
    pub open spec fn moved_by(self, motions: Seq<Motion<P, V>>) -> Self {
        WorldState {
            planets: Seq::new(
                self.planets.len(),
                |k: int| with_motion(self.planets[k], motions[k]),
            ),
            ..self
        }
    }

    /// `far` is what is to be said of the trail at place `k`: the host's
    /// answer for the planet and the newest node; yes for a trail without
    /// node, which has nothing to be apart from; no for a trail without planet.
    pub open spec fn cleared<H: Physics<P, V, S>>(self, host: &H, k: int, far: bool) -> bool {
        match self.position_of(self.trails[k].0) {
            Some(position) => if self.trails[k].1.nodes.len() > 0 {
                says_apart(host, position, self.trails[k].1.nodes.last().pos, far)
            } else {
                far
            },
            None => !far,
        }
    }

    /// `after` and `groups` are what one step of `dt` nanoseconds that ends
    /// at `now` makes of this world with the answers given: `planets` and
    /// `scan` for the end of the pass over the pairs, `bodies` for the planets
    /// that the groups merge into, `motions` for the motion of every planet,
    /// `apart` for the trails; and the host has given these answers, each
    /// when asked about the planets as they were at that point of the step.
    ///
    /// In this order: the trails that are over leave. Every pair of planets
    /// is decided, from the first pair to the last, and the pairs that
    /// attract each other get their forces. Every group merges into one
    /// planet, made of exactly the planets numbered in it. Every planet gets
    /// its motion, and its spawn protection runs out. Every trail follows
    /// its planet.
    pub open spec fn stepped_with<H: Physics<P, V, S>>(
        self,
        host: &H,
        after: Self,
        groups: Seq<Seq<usize>>,
        dt: u64,
        now: u64,
        policy: ProtectionPolicy,
        planets: Seq<Planet<P, V, S>>,
        scan: ScanState,
        bodies: Seq<Planet<P, V, S>>,
        motions: Seq<Motion<P, V>>,
        apart: Seq<bool>,
    ) -> bool {
        let expired = self.without_dead_trails();
        let attracted = WorldState { planets, ..expired };
        let resolved = attracted.resolved(groups, bodies, now);
        let moved = resolved.moved_by(motions).aged(dt);
        &&& pass_reaches(host, expired.planets, expired.start_scan(policy), planets, scan)
        &&& groups == scan.groups
        &&& bodies.len() == groups.len()
        &&& forall|g: int|
            0 <= g < groups.len() ==> says_merge(
                host,
                attracted.group_members(groups[g]),
                #[trigger] bodies[g],
            )
        &&& motions.len() == resolved.planets.len()
        &&& forall|k: int|
            0 <= k < motions.len() ==> says_motion(
                host,
                resolved.planets[k],
                dt,
                #[trigger] motions[k],
            )
        &&& apart.len() == moved.trails.len()
        &&& forall|k: int| 0 <= k < apart.len() ==> moved.cleared(host, k, #[trigger] apart[k])
        &&& after == moved.with_trails_updated(dt, now, apart)
    }

    /// `after` and `groups` are what one step of `dt` nanoseconds that ends
    /// at `now` makes of this world with answers that the host has given.
    pub open spec fn stepped_by<H: Physics<P, V, S>>(
        self,
        host: &H,
        after: Self,
        groups: Seq<Seq<usize>>,
        dt: u64,
        now: u64,
        policy: ProtectionPolicy,
    ) -> bool {
        exists|
            planets: Seq<Planet<P, V, S>>,
            scan: ScanState,
            bodies: Seq<Planet<P, V, S>>,
            motions: Seq<Motion<P, V>>,
            apart: Seq<bool>,
        | #[trigger]
            self.stepped_with(
                host,
                after,
                groups,
                dt,
                now,
                policy,
                planets,
                scan,
                bodies,
                motions,
                apart,
            )
    }
}

/// The same body, whatever its motion: number, mass, radius and spawn
/// protection agree.
pub open spec fn same_body<P, V, S>(a: Planet<P, V, S>, b: Planet<P, V, S>) -> bool {
    &&& a.id == b.id
    &&& a.mass == b.mass
    &&& a.radius == b.radius
    &&& a.spawn_protection_timer == b.spawn_protection_timer
}

/// The same bodies in the same order, whatever their motion.
pub open spec fn same_bodies<P, V, S>(a: Seq<Planet<P, V, S>>, b: Seq<Planet<P, V, S>>) -> bool {
    &&& a.len() == b.len()
    &&& forall|k: int| 0 <= k < a.len() ==> same_body(#[trigger] a[k], b[k])
}

/// `after` is the trail `before` updated for a planet that is `apart`, or is
/// not, from its newest node.
pub open spec fn follows<P>(
    after: TrailState<P>,
    before: TrailState<P>,
    dt: u64,
    now: u64,
    parent_pos: Option<P>,
    apart: bool,
) -> bool {
    after == before.updated(dt, now, parent_pos, apart)
}

/// `after` is a trail that was started at `start` at the time `now` and
/// updated once since.
pub open spec fn follows_from<P>(
    after: TrailState<P>,
    start: P,
    dt: u64,
    now: u64,
    parent_pos: Option<P>,
    apart: bool,
) -> bool {
    after == TrailState::started(start, now).updated(dt, now, parent_pos, apart)
}

impl<P, V, S> WorldState<P, V, S> {
    /// `after` is this world one step of `dt` nanoseconds later, at `now`,
    /// with the collisions in `groups`.
    ///
    /// The planets: those of no group, in their order, each the body that it
    /// was, with `dt` off its spawn protection; then one for each group, in
    /// their order, under the numbers that were next, without protection.
    /// No group holds a planet that was protected.
    ///
    /// The trails: those that were not over, in their order, each updated
    /// with the place where its planet is now, or with none where the planet
    /// is gone; then one for each new planet, started in this step.
    pub open spec fn stepped(
        self,
        after: Self,
        groups: Seq<Seq<usize>>,
        dt: u64,
        now: u64,
    ) -> bool {
        let kept = self.planets.filter(ungrouped(groups));
        let trails = self.trails.filter(trail_alive());
        &&& well_grouped(groups)
        &&& drawn_from(groups, self.scan_bodies())
        &&& after.well_formed()
        &&& after.planet_id_count == self.planet_id_count + groups.len()
        &&& after.planets.len() == kept.len() + groups.len()
        &&& forall|k: int|
            #![trigger after.planets[k]]
            0 <= k < kept.len() ==> same_body(after.planets[k], kept[k].aged(dt))
        &&& forall|g: int|
            #![trigger after.planets[kept.len() + g]]
            0 <= g < groups.len() ==> {
                &&& after.planets[kept.len() + g].id == self.planet_id_count + g
                &&& after.planets[kept.len() + g].spawn_protection_timer.is_none()
            }
        &&& after.trails.len() == trails.len() + groups.len()
        &&& forall|k: int|
            #![trigger after.trails[k]]
            0 <= k < trails.len() ==> {
                &&& after.trails[k].0 == trails[k].0
                &&& exists|apart: bool| #[trigger]
                    follows(
                        after.trails[k].1,
                        trails[k].1,
                        dt,
                        now,
                        after.position_of(trails[k].0),
                        apart,
                    )
            }
        &&& forall|g: int|
            #![trigger after.trails[trails.len() + g]]
            0 <= g < groups.len() ==> {
                &&& after.trails[trails.len() + g].0 == self.planet_id_count + g
                &&& exists|start: P, apart: bool| #[trigger]
                    follows_from(
                        after.trails[trails.len() + g].1,
                        start,
                        dt,
                        now,
                        after.position_of(after.trails[trails.len() + g].0),
                        apart,
                    )
            }
    }
}

/// The same planets in the same order, but for the forces on them.
pub open spec fn same_but_forces<P, V, S>(a: Seq<Planet<P, V, S>>, b: Seq<Planet<P, V, S>>) -> bool {
    &&& a.len() == b.len()
    &&& forall|k: int|
        0 <= k < a.len() ==> #[trigger] a[k] == (Planet {
            resultant_force: a[k].resultant_force,
            ..b[k]
        })
}

/// Goes through all pairs of planets. Where the host finds two overlapping,
/// they collide and are grouped, unless one of them is protected; where they
/// are apart, the host adds their pull on each other to the forces on them,
/// unless one is protected and `policy` forbids it. Returns the groups, and
/// the pass at its end.
fn attract_and_group<P: Copy, V, S, H: Physics<P, V, S>>(
    world: &mut World<P, V, S>,
    host: &H,
    policy: ProtectionPolicy,
) -> (done: (CollisionGroups, Ghost<ScanState>))
    ensures
        pass_reaches(
            host,
            old(world)@.planets,
            old(world)@.start_scan(policy),
            final(world)@.planets,
            done.1@,
        ),
        done.0@ == done.1@.groups,
        final(world)@ == (WorldState { planets: final(world)@.planets, ..old(world)@ }),
        final(world)@.well_formed(),
        same_but_forces(final(world)@.planets, old(world)@.planets),
        well_grouped(done.0@),
        drawn_from(done.0@, old(world)@.scan_bodies()),
        done.0@.len() <= old(world)@.planets.len(),
{
    proof {
        use_type_invariant(&*world);
    }
    let mut scan = world.begin_scan(policy);
    let ghost bodies = world@.scan_bodies();
    let ghost start_planets = world@.planets;
    let ghost start_scan = scan@;
    let mut pair = scan.current();
    let n = world.planet_count();
    while pair.is_some()
        invariant
            n == bodies.len(),
            bodies == old(world)@.scan_bodies(),
            scan@.bodies == bodies,
            scan@.well_formed(),
            match pair {
                Some((first, second)) => scan@.active() && first == scan@.first && second
                    == scan@.second,
                None => !scan@.active(),
            },
            world@.well_formed(),
            world@.planet_id_count == old(world)@.planet_id_count,
            world@.trails == old(world)@.trails,
            same_but_forces(world@.planets, old(world)@.planets),
            forall|end_planets: Seq<Planet<P, V, S>>, end_scan: ScanState| #[trigger]
                pass_reaches(host, world@.planets, scan@, end_planets, end_scan) ==> pass_reaches(
                    host,
                    start_planets,
                    start_scan,
                    end_planets,
                    end_scan,
                ),
        decreases n - scan@.first, n - scan@.second,
    {
        let (i, j) = pair.unwrap();
        let ghost planets = world@.planets;
        let ghost before = scan@;
        let ghost mut forces: (V, V) = arbitrary();
        let overlapping = host.are_colliding(world.planet(i), world.planet(j));
        assert(says_overlap(host, planets[i as int], planets[j as int], overlapping));
        let action = scan.decide(overlapping);
        match action {
            Some(PairAction::Attract) => {
                let (on_first, on_second) = host.newtonian_grav(world.planet(i), world.planet(j));
                proof {
                    forces = (on_first, on_second);
                    assert(says_pull(host, planets[i as int], planets[j as int], forces));
                }
                world.set_resultant_force(i, on_first);
                world.set_resultant_force(j, on_second);
            },
            _ => {},
        }
        proof {
            assert(world@.planets =~= after_pair(planets, before, overlapping, forces));
            assert forall|end_planets: Seq<Planet<P, V, S>>, end_scan: ScanState| #[trigger]
                pass_reaches(host, world@.planets, scan@, end_planets, end_scan) implies pass_reaches(
                host,
                start_planets,
                start_scan,
                end_planets,
                end_scan,
            ) by {
                assert(pass_reaches(
                    host,
                    after_pair(planets, before, overlapping, forces),
                    before.decided(overlapping),
                    end_planets,
                    end_scan,
                ));
                assert(pair_answered(host, planets, before, overlapping, forces));
                lemma_pass_goes_on(
                    host,
                    planets,
                    before,
                    overlapping,
                    forces,
                    end_planets,
                    end_scan,
                );
            }
        }
        pair = scan.current();
    }
    proof {
        assert(pass_reaches(host, world@.planets, scan@, world@.planets, scan@));
    }
    let ghost end = scan@;
    let groups = scan.finish();
    (groups, Ghost(end))
}

/// Asks the host for the planet that each group merges into: for each group
/// the host is given exactly the planets numbered in it, in their order.
fn merged_bodies<P: Copy, V, S, H: Physics<P, V, S>>(
    world: &World<P, V, S>,
    host: &H,
    groups: &CollisionGroups,
) -> (bodies: Vec<Planet<P, V, S>>)
    requires
        well_grouped(groups@),
        drawn_from(groups@, world@.scan_bodies()),
    ensures
        bodies@.len() == groups@.len(),
        forall|g: int|
            0 <= g < groups@.len() ==> says_merge(
                host,
                world@.group_members(groups@[g]),
                #[trigger] bodies@[g],
            ),
{
    let mut bodies: Vec<Planet<P, V, S>> = Vec::new();
    let mut g: usize = 0;
    while g < groups.len()
        invariant
            well_grouped(groups@),
            drawn_from(groups@, world@.scan_bodies()),
            g <= groups@.len(),
            bodies@.len() == g,
            forall|h: int|
                0 <= h < g ==> says_merge(
                    host,
                    world@.group_members(groups@[h]),
                    #[trigger] bodies@[h],
                ),
        decreases groups@.len() - g,
    {
        let group = groups.group(g);
        let mut members: Vec<&Planet<P, V, S>> = Vec::new();
        let mut k: usize = 0;
        proof {
            assert(planets_of(members@) =~= world@.group_members(group@.take(0)));
        }
        while k < group.len()
            invariant
                drawn_from(groups@, world@.scan_bodies()),
                g < groups@.len(),
                group@ == groups@[g as int],
                k <= group@.len(),
                planets_of(members@) == world@.group_members(group@.take(k as int)),
            decreases group@.len() - k,
        {
            let id = group[k];
            proof {
                let bodies = world@.scan_bodies();
                assert(group@[k as int] == id);
                assert(groups@[g as int].contains(id));
                assert(crate::grouping::grouped(groups@, id));
                let a = choose|a: int| 0 <= a < bodies.len() && #[trigger] bodies[a] == (id, false);
                assert(world@.planets[a].id == id);
                assert(crate::world::planet_ids(world@.planets)[a] == id);
                assert(world@.has_planet(id));
            }
            match world.index_of(id) {
                Some(index) => {
                    let member = world.planet(index);
                    proof {
                        assert(planets_of(members@.push(member)) =~= planets_of(members@).push(
                            *member,
                        ));
                        assert(world@.group_members(group@.take(k + 1)) =~= world@.group_members(
                            group@.take(k as int),
                        ).push(*member));
                    }
                    members.push(member);
                },
                None => {},
            }
            k += 1;
        }
        proof {
            assert(group@.take(k as int) =~= group@);
            assert(planets_of(members@).len() == group@.len());
        }
        let body = host.collide_planets(&members);
        proof {
            assert(says_merge(host, world@.group_members(groups@[g as int]), body));
        }
        bodies.push(body);
        g += 1;
    }
    bodies
}

/// Asks the host where every planet is after `dt_duration` nanoseconds, and
/// writes it back. Returns the host's answers.
fn integrate_planets<P: Copy, V, S, H: Physics<P, V, S>>(
    world: &mut World<P, V, S>,
    host: &H,
    dt_duration: u64,
) -> (motions: Ghost<Seq<Motion<P, V>>>)
    ensures
        motions@.len() == old(world)@.planets.len(),
        forall|k: int|
            0 <= k < motions@.len() ==> says_motion(
                host,
                old(world)@.planets[k],
                dt_duration,
                #[trigger] motions@[k],
            ),
        final(world)@ == old(world)@.moved_by(motions@),
        final(world)@.well_formed(),
        same_bodies(final(world)@.planets, old(world)@.planets),
{
    proof {
        use_type_invariant(&*world);
    }
    let ghost before = world@.planets;
    let ghost mut motions: Seq<Motion<P, V>> = Seq::empty();
    let n = world.planet_count();
    let mut k: usize = 0;
    while k < n
        invariant
            k <= n == world@.planets.len() == before.len(),
            before == old(world)@.planets,
            world@.well_formed(),
            world@.planet_id_count == old(world)@.planet_id_count,
            world@.trails == old(world)@.trails,
            motions.len() == k,
            forall|a: int|
                0 <= a < k ==> says_motion(host, before[a], dt_duration, #[trigger] motions[a]),
            forall|a: int|
                #![trigger before[a]]
                0 <= a < k ==> world@.planets[a] == with_motion(before[a], motions[a]),
            forall|a: int| #![trigger before[a]] k <= a < n ==> world@.planets[a] == before[a],
        decreases n - k,
    {
        let motion = host.integrate(world.planet(k), dt_duration);
        proof {
            motions = motions.push(motion);
        }
        world.set_motion(k, motion.position, motion.velocity, motion.resultant_force);
        k += 1;
    }
    proof {
        assert(world@.planets =~= old(world)@.moved_by(motions).planets);
        assert forall|a: int| 0 <= a < n implies same_body(
            #[trigger] world@.planets[a],
            before[a],
        ) by {
            assert(world@.planets[a] == with_motion(before[a], motions[a]));
        }
    }
    Ghost(motions)
}

/// Asks the host, for every trail, whether its planet is far enough from its
/// newest node for another node. A trail without node has nothing to be
/// apart from and counts as clear; a trail without planet gets no node.
fn trail_clearances<P: Copy, V, S, H: Physics<P, V, S>>(world: &World<P, V, S>, host: &H) -> (apart:
    Vec<bool>)
    ensures
        apart@.len() == world@.trails.len(),
        forall|k: int| 0 <= k < apart@.len() ==> world@.cleared(host, k, #[trigger] apart@[k]),
{
    let n = world.trail_count();
    let mut apart: Vec<bool> = Vec::new();
    let mut k: usize = 0;
    while k < n
        invariant
            k <= n == world@.trails.len(),
            apart@.len() == k,
            forall|a: int| 0 <= a < k ==> world@.cleared(host, a, #[trigger] apart@[a]),
        decreases n - k,
    {
        let far = match world.parent_position(k) {
            Some(position) => match world.trail(k).trail.newest() {
                Some(node) => host.apart(&position, &node.pos),
                None => true,
            },
            None => false,
        };
        proof {
            assert(world@.cleared(host, k as int, far));
        }
        apart.push(far);
        k += 1;
    }
    apart
}

/// Planets that stand in no group are left by the same filter, whatever
/// their motion.
proof fn lemma_same_bodies_filtered<P, V, S>(
    a: Seq<Planet<P, V, S>>,
    b: Seq<Planet<P, V, S>>,
    groups: Seq<Seq<usize>>,
)
    requires
        same_bodies(a, b),
    ensures
        same_bodies(a.filter(ungrouped(groups)), b.filter(ungrouped(groups))),
    decreases a.len(),
{
    reveal(Seq::filter);
    if a.len() > 0 {
        assert(same_body(a[a.len() - 1], b[a.len() - 1]));
        assert(same_bodies(a.drop_last(), b.drop_last())) by {
            assert forall|k: int| 0 <= k < a.drop_last().len() implies same_body(
                #[trigger] a.drop_last()[k],
                b.drop_last()[k],
            ) by {
                assert(same_body(a[k], b[k]));
            }
        }
        lemma_same_bodies_filtered(a.drop_last(), b.drop_last(), groups);
    }
}

impl<P: Copy, V, S> World<P, V, S> {
    /// Advances the simulation by the step of `dt_duration` nanoseconds that
    /// ends at `now`, with the physics that `host` supplies, and returns the
    /// groups of planets that have collided and merged in it.
    ///
    /// In this order: the trails that are over leave; every pair of planets
    /// attracts or collides; every group of collided planets merges into one
    /// planet; the planets move and their spawn protection runs out; the
    /// trails follow their planets.
    ///
    /// The host is asked about every pair, every group, every planet and
    /// every followed trail that has a node, each as it is at that point of
    /// the step, and the world afterwards is what `stepped_with` makes of
    /// the answers that the host has given.
    pub fn tick<H: Physics<P, V, S>>(
        &mut self,
        host: &H,
        dt_duration: u64,
        now: u64,
        policy: ProtectionPolicy,
    ) -> (groups: CollisionGroups)
        requires
            old(self)@.planet_id_count + old(self)@.planets.len() <= usize::MAX,
        ensures
            old(self)@.stepped_by(host, final(self)@, groups@, dt_duration, now, policy),
            old(self)@.stepped(final(self)@, groups@, dt_duration, now),
    {
        self.expire_trails();
        let ghost expired = self@;
        let (groups, Ghost(end_scan)) = attract_and_group(self, host, policy);
        let ghost attracted = self@;
        proof {
            assert(attracted.scan_bodies() =~= expired.scan_bodies());
        }
        let bodies = merged_bodies(self, host, &groups);
        let ghost merged = bodies@;
        self.resolve_collisions(&groups, bodies, now);
        let ghost resolved = self@;
        let Ghost(motions) = integrate_planets(self, host, dt_duration);
        let ghost moved = self@;
        self.update_planets(dt_duration);
        let ghost aged = self@;
        let apart = trail_clearances(self, host);
        self.update_planet_trails(dt_duration, now, &apart);
        proof {
            let before = old(self)@;
            let after = self@;
            let kept = before.planets.filter(ungrouped(groups@));
            let trails = before.trails.filter(trail_alive());
            assert(attracted == (WorldState { planets: attracted.planets, ..expired }));
            assert(aged == resolved.moved_by(motions).aged(dt_duration));
            assert(before.stepped_with(
                host,
                after,
                groups@,
                dt_duration,
                now,
                policy,
                attracted.planets,
                end_scan,
                merged,
                motions,
                apart@,
            ));
            assert(drawn_from(groups@, before.scan_bodies())) by {
                assert(expired.scan_bodies() =~= before.scan_bodies());
            }
            lemma_same_bodies_filtered(attracted.planets, before.planets, groups@);
            let survivors = attracted.planets.filter(ungrouped(groups@));
            assert(after.planets.len() == kept.len() + groups@.len());
            assert forall|k: int| #![trigger after.planets[k]] 0 <= k < kept.len() implies same_body(
                after.planets[k],
                kept[k].aged(dt_duration),
            ) by {
                assert(resolved.planets[k] == survivors[k]);
                assert(same_body(survivors[k], kept[k]));
                assert(same_body(moved.planets[k], resolved.planets[k]));
                assert(aged.planets[k] == moved.planets[k].aged(dt_duration));
            }
            assert forall|g: int|
                #![trigger after.planets[kept.len() + g]]
                0 <= g < groups@.len() implies {
                &&& after.planets[kept.len() + g].id == before.planet_id_count + g
                &&& after.planets[kept.len() + g].spawn_protection_timer.is_none()
            } by {
                let at = kept.len() + g;
                assert(resolved.planets[at].id == before.planet_id_count + g);
                assert(resolved.planets[at].spawn_protection_timer.is_none());
                assert(same_body(moved.planets[at], resolved.planets[at]));
                assert(aged.planets[at] == moved.planets[at].aged(dt_duration));
            }
            assert(resolved.trails.len() == trails.len() + groups@.len());
            assert forall|k: int| #![trigger after.trails[k]] 0 <= k < trails.len() implies {
                &&& after.trails[k].0 == trails[k].0
                &&& exists|far: bool| #[trigger]
                    follows(
                        after.trails[k].1,
                        trails[k].1,
                        dt_duration,
                        now,
                        after.position_of(trails[k].0),
                        far,
                    )
            } by {
                assert(aged.trails[k] == trails[k]);
                assert(follows(
                    after.trails[k].1,
                    trails[k].1,
                    dt_duration,
                    now,
                    after.position_of(trails[k].0),
                    k < apart@.len() && apart@[k],
                ));
            }
            assert forall|g: int|
                #![trigger after.trails[trails.len() + g]]
                0 <= g < groups@.len() implies {
                &&& after.trails[trails.len() + g].0 == before.planet_id_count + g
                &&& exists|start: P, far: bool| #[trigger]
                    follows_from(
                        after.trails[trails.len() + g].1,
                        start,
                        dt_duration,
                        now,
                        after.position_of(after.trails[trails.len() + g].0),
                        far,
                    )
            } by {
                let at = trails.len() + g;
                assert(aged.trails[at] == resolved.trails[at]);
                assert(follows_from(
                    after.trails[at].1,
                    bodies@[g].position,
                    dt_duration,
                    now,
                    after.position_of(after.trails[at].0),
                    at < apart@.len() && apart@[at],
                ));
            }
        }
        groups
    }
}

} // verus!
