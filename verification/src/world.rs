//! The world: the planets that exist, the trails that follow them, and the
//! numbering of both.

use crate::grouping::{grouped, CollisionGroups};
use crate::planet::Planet;
use crate::scan::{PairScan, ProtectionPolicy, ScanState};
use crate::sequences::{lemma_filter_none, lemma_filter_take_step};
use crate::trail::{PlanetTrail, TrailState};
use vstd::prelude::*;

verus! {

/// A trail and the number of the planet that draws it.
pub struct TrailEntry<P> {
    pub id: usize,
    pub trail: PlanetTrail<P>,
}

/// What a world holds, as mathematics sees it.
pub ghost struct WorldState<P, V, S> {
    /// The number that the next planet gets.
    pub planet_id_count: usize,
    /// The planets, by rising number.
    pub planets: Seq<Planet<P, V, S>>,
    /// The trails with the numbers of their planets, by rising number.
    pub trails: Seq<(usize, TrailState<P>)>,
}

/// The numbers of the planets, in their order.
pub open spec fn planet_ids<P, V, S>(planets: Seq<Planet<P, V, S>>) -> Seq<usize> {
    planets.map_values(|p: Planet<P, V, S>| p.id)
}

/// The numbers of the planets that the trails belong to, in their order.
pub open spec fn trail_ids<P>(trails: Seq<(usize, TrailState<P>)>) -> Seq<usize> {
    trails.map_values(|t: (usize, TrailState<P>)| t.0)
}

/// The numbers rise strictly.
pub open spec fn rising(ids: Seq<usize>) -> bool {
    forall|a: int, b: int| 0 <= a < b < ids.len() ==> ids[a] < ids[b]
}

/// The numbers rise strictly and stay under `bound`.
pub open spec fn rising_below(ids: Seq<usize>, bound: usize) -> bool {
    &&& rising(ids)
    &&& forall|a: int| 0 <= a < ids.len() ==> ids[a] < bound
}

/// One of the trails belongs to the planet with the number `id` and has
/// seen the planet when it was last updated.
pub open spec fn followed<P>(trails: Seq<(usize, TrailState<P>)>, id: usize) -> bool {
    exists|t: int| 0 <= t < trails.len() && (#[trigger] trails[t]).0 == id && trails[t].1.has_parent
}

/// Every one of the planets has its trail.
pub open spec fn all_followed<P, V, S>(
    planets: Seq<Planet<P, V, S>>,
    trails: Seq<(usize, TrailState<P>)>,
) -> bool {
    forall|a: int| 0 <= a < planets.len() ==> followed(trails, (#[trigger] planets[a]).id)
}

/// The trail is over: its planet is gone and its last node has expired.
pub open spec fn trail_dead<P>(t: (usize, TrailState<P>)) -> bool {
    t.1.nodes.len() == 0 && !t.1.has_parent
}

/// The test that a trail is not over.
pub open spec fn trail_alive<P>() -> spec_fn((usize, TrailState<P>)) -> bool {
    |t: (usize, TrailState<P>)| !trail_dead(t)
}

/// The test that a planet stands in none of `groups`.
pub open spec fn ungrouped<P, V, S>(groups: Seq<Seq<usize>>) -> spec_fn(Planet<P, V, S>) -> bool {
    |p: Planet<P, V, S>| !grouped(groups, p.id)
}

/// How many nodes the trails hold together.
pub open spec fn node_total<P>(trails: Seq<(usize, TrailState<P>)>) -> nat
    decreases trails.len(),
{
    if trails.len() == 0 {
        0
    } else {
        node_total(trails.drop_last()) + trails.last().1.nodes.len()
    }
}

impl<P, V, S> WorldState<P, V, S> {
    /// No number is in use twice, and none that is yet to be given out; and
    /// every planet has its trail.
    pub open spec fn well_formed(self) -> bool {
        &&& rising_below(planet_ids(self.planets), self.planet_id_count)
        &&& rising_below(trail_ids(self.trails), self.planet_id_count)
        &&& all_followed(self.planets, self.trails)
    }

    /// A planet with the number `id` exists.
    pub open spec fn has_planet(self, id: usize) -> bool {
        planet_ids(self.planets).contains(id)
    }

    /// The place of the planet with the number `id` among the planets.
    pub open spec fn index_of(self, id: usize) -> int {
        planet_ids(self.planets).index_of(id)
    }

    /// The world with one more planet, made of `planet` and the next number,
    /// and with the trail that starts where the planet is at `now`.
    pub open spec fn with_planet(self, planet: Planet<P, V, S>, now: u64) -> Self {
        let id = self.planet_id_count;
        WorldState {
            planet_id_count: (id + 1) as usize,
            planets: self.planets.push(Planet { id, ..planet }),
            trails: self.trails.push((id, TrailState::started(planet.position, now))),
        }
    }

    /// The world without the planet that has the number `id`. Its trail stays.
    pub open spec fn without_planet(self, id: usize) -> Self {
        if self.has_planet(id) {
            WorldState { planets: self.planets.remove(self.index_of(id)), ..self }
        } else {
            self
        }
    }

    /// The world without the trails that are over.
    pub open spec fn without_dead_trails(self) -> Self {
        WorldState { trails: self.trails.filter(trail_alive()), ..self }
    }

    /// The world after `dt` nanoseconds of every spawn protection have run out.
    pub open spec fn aged(self, dt: u64) -> Self {
        WorldState { planets: self.planets.map_values(|p: Planet<P, V, S>| p.aged(dt)), ..self }
    }

    /// The world after every trail has made the step of `dt` nanoseconds that
    /// ends at `now`: each with the position of its planet, or with none where
    /// the planet is gone. `apart` says of each trail, in their order, whether
    /// its planet is far enough from its newest node; a trail that `apart` does
    /// not reach counts as too close.
    pub open spec fn with_trails_updated(self, dt: u64, now: u64, apart: Seq<bool>) -> Self {
        WorldState {
            trails: Seq::new(
                self.trails.len(),
                |k: int|
                    (
                        self.trails[k].0,
                        self.trails[k].1.updated(
                            dt,
                            now,
                            self.position_of(self.trails[k].0),
                            k < apart.len() && apart[k],
                        ),
                    ),
            ),
            ..self
        }
    }

    /// The world after the collisions in `groups` are resolved: the planets
    /// numbered in them are gone, and for each group, in their order, the
    /// planet of `bodies` that it has merged into is there, under the next
    /// number, without spawn protection and with a trail of its own that
    /// starts at `now`.
    pub open spec fn resolved(
        self,
        groups: Seq<Seq<usize>>,
        bodies: Seq<Planet<P, V, S>>,
        now: u64,
    ) -> Self {
        WorldState {
            planet_id_count: (self.planet_id_count + bodies.len()) as usize,
            planets: self.planets.filter(ungrouped(groups)) + Seq::new(
                bodies.len(),
                |g: int|
                    Planet {
                        id: (self.planet_id_count + g) as usize,
                        spawn_protection_timer: None,
                        ..bodies[g]
                    },
            ),
            trails: self.trails + Seq::new(
                bodies.len(),
                |g: int|
                    (
                        (self.planet_id_count + g) as usize,
                        TrailState::started(bodies[g].position, now),
                    ),
            ),
        }
    }

    /// The planets as a pass over their pairs takes them: the number of each
    /// and whether it is under spawn protection.
    pub open spec fn scan_bodies(self) -> Seq<(usize, bool)> {
        self.planets.map_values(|p: Planet<P, V, S>| (p.id, p.spawn_protection_timer.is_some()))
    }

    /// Where the planet with the number `id` is, if it exists.
    pub open spec fn position_of(self, id: usize) -> Option<P> {
        if self.has_planet(id) {
            Some(self.planets[self.index_of(id)].position)
        } else {
            None
        }
    }
}

/// The planets of a world, the trails that follow them, and the numbering.
pub struct World<P, V, S> {
    planet_id_count: usize,
    planets: Vec<Planet<P, V, S>>,
    planet_trails: Vec<TrailEntry<P>>,
}

/// The trails as mathematics sees them.
spec fn trail_states<P>(entries: Seq<TrailEntry<P>>) -> Seq<(usize, TrailState<P>)> {
    entries.map_values(|e: TrailEntry<P>| (e.id, e.trail@))
}

impl<P, V, S> View for World<P, V, S> {
    type V = WorldState<P, V, S>;

    closed spec fn view(&self) -> WorldState<P, V, S> {
        WorldState {
            planet_id_count: self.planet_id_count,
            planets: self.planets@,
            trails: trail_states(self.planet_trails@),
        }
    }
}

impl<P, V, S> World<P, V, S> {
    #[verifier::type_invariant]
    pub open spec fn inv(&self) -> bool {
        self@.well_formed()
    }
}

/// The place among `planets` of the one with the number `id`, if it is there.
fn find_planet<P, V, S>(planets: &Vec<Planet<P, V, S>>, id: usize) -> (found: Option<usize>)
    requires
        rising(planet_ids(planets@)),
    ensures
        match found {
            Some(index) => planet_ids(planets@).contains(id) && index == planet_ids(
                planets@,
            ).index_of(id) && index < planets@.len() && planets@[index as int].id == id,
            None => !planet_ids(planets@).contains(id),
        },
{
    let ghost ids = planet_ids(planets@);
    let mut low: usize = 0;
    let mut high: usize = planets.len();
    while low < high
        invariant
            ids == planet_ids(planets@),
            rising(ids),
            low <= high <= planets@.len(),
            forall|k: int| 0 <= k < low ==> ids[k] < id,
            forall|k: int| high <= k < ids.len() ==> ids[k] > id,
        decreases high - low,
    {
        let middle = low + (high - low) / 2;
        let there = planets[middle].id;
        assert(ids[middle as int] == there);
        if there == id {
            proof {
                lemma_place_in_rising(ids, id, middle as int);
            }
            return Some(middle);
        } else if there < id {
            low = middle + 1;
        } else {
            high = middle;
        }
    }
    proof {
        assert forall|k: int| 0 <= k < ids.len() implies ids[k] != id by {}
    }
    None
}

impl<P: Copy, V, S> World<P, V, S> {
    /// A world without planets, in which the first planet gets the number 0.
    pub fn new() -> (world: Self)
        ensures
            world@ == (WorldState::<P, V, S> {
                planet_id_count: 0,
                planets: Seq::empty(),
                trails: Seq::empty(),
            }),
            world@.well_formed(),
    {
        let world = World { planet_id_count: 0, planets: Vec::new(), planet_trails: Vec::new() };
        assert(world@.trails =~= Seq::empty());
        world
    }

    /// How many planets there are.
    pub fn planet_count(&self) -> (n: usize)
        ensures
            n == self@.planets.len(),
    {
        self.planets.len()
    }

    /// The planet at place `index`.
    pub fn planet(&self, index: usize) -> (planet: &Planet<P, V, S>)
        requires
            index < self@.planets.len(),
        ensures
            *planet == self@.planets[index as int],
    {
        &self.planets[index]
    }

    /// The number that the next planet gets.
    pub fn planet_id_count(&self) -> (n: usize)
        ensures
            n == self@.planet_id_count,
    {
        self.planet_id_count
    }

    /// How many trails there are.
    pub fn trail_count(&self) -> (n: usize)
        ensures
            n == self@.trails.len(),
    {
        self.planet_trails.len()
    }

    /// The trail at place `index`, with the number of its planet.
    pub fn trail(&self, index: usize) -> (entry: &TrailEntry<P>)
        requires
            index < self@.trails.len(),
        ensures
            (entry.id, entry.trail@) == self@.trails[index as int],
    {
        &self.planet_trails[index]
    }

    /// Takes the planets out of the world for a moment.
    fn take_planets(&mut self) -> (planets: Vec<Planet<P, V, S>>)
        ensures
            planets@ == old(self)@.planets,
            old(self)@.well_formed(),
            final(self)@ == (WorldState { planets: Seq::empty(), ..old(self)@ }),
    {
        proof {
            use_type_invariant(&*self);
        }
        let mut planets: Vec<Planet<P, V, S>> = Vec::new();
        assert(planet_ids(planets@) =~= Seq::empty());
        core::mem::swap(&mut self.planets, &mut planets);
        planets
    }

    /// Puts planets into a world that has none.
    fn put_planets(&mut self, planets: Vec<Planet<P, V, S>>)
        requires
            old(self)@.planets.len() == 0,
            rising_below(planet_ids(planets@), old(self)@.planet_id_count),
            all_followed(planets@, old(self)@.trails),
        ensures
            final(self)@ == (WorldState { planets: planets@, ..old(self)@ }),
            final(self)@.well_formed(),
    {
        proof {
            use_type_invariant(&*self);
        }
        let mut planets = planets;
        core::mem::swap(&mut self.planets, &mut planets);
    }

    /// Takes the trails out of a world that has no planets, for a moment.
    fn take_trails(&mut self) -> (entries: Vec<TrailEntry<P>>)
        requires
            old(self)@.planets.len() == 0,
        ensures
            trail_states(entries@) == old(self)@.trails,
            final(self)@ == (WorldState { trails: Seq::empty(), ..old(self)@ }),
    {
        proof {
            use_type_invariant(&*self);
        }
        let mut entries: Vec<TrailEntry<P>> = Vec::new();
        assert(trail_states(entries@) =~= Seq::empty());
        assert(trail_ids(trail_states(entries@)) =~= Seq::empty());
        core::mem::swap(&mut self.planet_trails, &mut entries);
        entries
    }

    /// Puts trails into a world that has neither trails nor planets.
    fn put_trails(&mut self, entries: Vec<TrailEntry<P>>)
        requires
            old(self)@.planets.len() == 0,
            old(self)@.trails.len() == 0,
            rising_below(trail_ids(trail_states(entries@)), old(self)@.planet_id_count),
        ensures
            final(self)@ == (WorldState { trails: trail_states(entries@), ..old(self)@ }),
    {
        proof {
            use_type_invariant(&*self);
        }
        let mut entries = entries;
        core::mem::swap(&mut self.planet_trails, &mut entries);
    }

    /// Adds `planet` under the next number, whatever number it came with, and
    /// starts its trail where it is at `now`. Returns the number.
    pub fn add_planet_raw(&mut self, planet: Planet<P, V, S>, now: u64) -> (id: usize)
        requires
            old(self)@.planet_id_count < usize::MAX,
        ensures
            id == old(self)@.planet_id_count,
            final(self)@ == old(self)@.with_planet(planet, now),
            final(self)@.well_formed(),
    {
        let mut planet = planet;
        let id = self.planet_id_count;
        planet.id = id;
        let trail = PlanetTrail::new(planet.position, now);
        let mut planets = self.take_planets();
        let mut entries = self.take_trails();
        proof {
            use_type_invariant(&*self);
        }
        self.planet_id_count = id + 1;
        let ghost before = old(self)@;
        let ghost after = before.with_planet(planet, now);
        proof {
            assert(planet_ids(planets@.push(planet)) =~= planet_ids(planets@).push(id));
            assert(trail_states(entries@.push(TrailEntry { id, trail })) =~= trail_states(
                entries@,
            ).push((id, trail@)));
            assert(trail_ids(trail_states(entries@).push((id, trail@))) =~= trail_ids(
                trail_states(entries@),
            ).push(id));
            assert(all_followed(after.planets, after.trails)) by {
                lemma_followed_in_more(before.trails, seq![after.trails.last()]);
                assert(after.trails =~= before.trails + seq![after.trails.last()]);
                assert(after.trails[before.trails.len() as int].0 == id);
            }
        }
        planets.push(planet);
        entries.push(TrailEntry { id, trail });
        self.put_trails(entries);
        self.put_planets(planets);
        id
    }

    /// Adds a planet made of the parts given, under the next number, and
    /// starts its trail where it is at `now`. Returns the number.
    pub fn add_planet(
        &mut self,
        position: P,
        velocity: V,
        mass: S,
        radius: S,
        resultant_force: V,
        spawn_protection: Option<u64>,
        now: u64,
    ) -> (id: usize)
        requires
            old(self)@.planet_id_count < usize::MAX,
        ensures
            id == old(self)@.planet_id_count,
            final(self)@ == old(self)@.with_planet(
                Planet {
                    id,
                    position,
                    velocity,
                    mass,
                    radius,
                    resultant_force,
                    spawn_protection_timer: spawn_protection,
                },
                now,
            ),
            final(self)@.well_formed(),
    {
        let planet = Planet::new(
            self.planet_id_count,
            position,
            velocity,
            mass,
            radius,
            resultant_force,
            spawn_protection,
        );
        self.add_planet_raw(planet, now)
    }

    /// Removes the planet with the number `id` and tells whether there was
    /// one. Its trail stays, to fade.
    pub fn remove_planet(&mut self, id: usize) -> (removed: bool)
        ensures
            removed == old(self)@.has_planet(id),
            final(self)@ == old(self)@.without_planet(id),
            final(self)@.well_formed(),
    {
        match self.index_of(id) {
            Some(index) => {
                let mut planets = self.take_planets();
                let ghost before = planets@;
                planets.remove(index);
                proof {
                    lemma_rising_remove(
                        planet_ids(before),
                        self@.planet_id_count,
                        index as int,
                    );
                    assert(planet_ids(planets@) =~= planet_ids(before).remove(index as int));
                    before.remove_ensures(index as int);
                    assert forall|a: int| 0 <= a < planets@.len() implies followed(
                        self@.trails,
                        (#[trigger] planets@[a]).id,
                    ) by {
                        if a < index {
                            assert(planets@[a] == before[a]);
                        } else {
                            assert(planets@[a] == before[a + 1]);
                        }
                    }
                }
                self.put_planets(planets);
                true
            },
            None => {
                proof {
                    use_type_invariant(&*self);
                }
                false
            },
        }
    }

    /// Removes every planet. The trails stay, to fade, and no number is given
    /// out again.
    pub fn clear(&mut self)
        ensures
            final(self)@ == (WorldState { planets: Seq::empty(), ..old(self)@ }),
            final(self)@.well_formed(),
    {
        let _ = self.take_planets();
        proof {
            use_type_invariant(&*self);
        }
    }

    /// Writes back what the host has computed for the planet at place
    /// `index`: where it is, how it moves, and the force on it.
    pub fn set_motion(&mut self, index: usize, position: P, velocity: V, resultant_force: V)
        requires
            index < old(self)@.planets.len(),
        ensures
            final(self)@ == (WorldState {
                planets: old(self)@.planets.update(
                    index as int,
                    Planet {
                        position,
                        velocity,
                        resultant_force,
                        ..old(self)@.planets[index as int]
                    },
                ),
                ..old(self)@
            }),
            final(self)@.well_formed(),
    {
        let mut planets = self.take_planets();
        let ghost before = planets@;
        let slot = &mut planets[index];
        slot.position = position;
        slot.velocity = velocity;
        slot.resultant_force = resultant_force;
        proof {
            lemma_same_numbers(before, planets@, self@.planet_id_count, self@.trails);
        }
        self.put_planets(planets);
    }

    /// Writes back the force that the host has found for the planet at place `index`.
    pub fn set_resultant_force(&mut self, index: usize, resultant_force: V)
        requires
            index < old(self)@.planets.len(),
        ensures
            final(self)@ == (WorldState {
                planets: old(self)@.planets.update(
                    index as int,
                    Planet { resultant_force, ..old(self)@.planets[index as int] },
                ),
                ..old(self)@
            }),
            final(self)@.well_formed(),
    {
        let mut planets = self.take_planets();
        let ghost before = planets@;
        planets[index].resultant_force = resultant_force;
        proof {
            lemma_same_numbers(before, planets@, self@.planet_id_count, self@.trails);
        }
        self.put_planets(planets);
    }

    /// Resolves the collisions in `groups`: the planets numbered in them leave
    /// the world, and for each group, in their order, the planet of `bodies`
    /// that the host has merged it into enters, under the next number, without
    /// spawn protection and with a trail of its own.
    pub fn resolve_collisions(
        &mut self,
        groups: &CollisionGroups,
        bodies: Vec<Planet<P, V, S>>,
        now: u64,
    )
        requires
            bodies@.len() == groups@.len(),
            old(self)@.planet_id_count + bodies@.len() <= usize::MAX,
        ensures
            final(self)@ == old(self)@.resolved(groups@, bodies@, now),
            final(self)@.well_formed(),
    {
        let planets = self.take_planets();
        let mut entries = self.take_trails();
        let ghost all = planets@;
        let ghost old_trails = trail_states(entries@);
        let count = self.planet_id_count;
        let ghost wanted = ungrouped::<P, V, S>(groups@);
        let mut kept: Vec<Planet<P, V, S>> = Vec::new();
        proof {
            lemma_filter_none(all, wanted);
            assert(planet_ids(kept@) =~= Seq::empty());
        }
        for planet in it: planets
            invariant
                it.seq() == planets@,
                all == planets@,
                wanted == ungrouped::<P, V, S>(groups@),
                rising_below(planet_ids(all), count),
                all_followed(all, old_trails),
                kept@ == all.take(it.index()).filter(wanted),
                rising_below(planet_ids(kept@), count),
                all_followed(kept@, old_trails),
                forall|a: int, b: int|
                    0 <= a < kept@.len() && it.index() <= b < all.len() ==> kept@[a].id < all[b].id,
        {
            let ghost i = it.index();
            proof {
                lemma_filter_take_step(all, wanted, i);
                assert(planet == all[i]);
                assert forall|b: int| i < b < all.len() implies planet.id < all[b].id by {
                    assert(planet_ids(all)[i] < planet_ids(all)[b]);
                }
                assert(planet_ids(all)[i] < count);
            }
            if groups.find(planet.id).is_none() {
                proof {
                    assert(planet_ids(kept@.push(planet)) =~= planet_ids(kept@).push(planet.id));
                    assert forall|a: int| 0 <= a < kept@.len() implies planet_ids(kept@)[a]
                        < planet.id by {
                        assert(kept@[a].id < all[i].id);
                    }
                }
                kept.push(planet);
            }
        }
        let ghost survivors = kept@;
        let ghost target = old(self)@.resolved(groups@, bodies@, now);
        let total = bodies.len();
        let mut g: usize = 0;
        proof {
            assert(kept@ =~= survivors + target.planets.subrange(
                survivors.len() as int,
                survivors.len() as int,
            ));
            assert(trail_states(entries@) =~= old_trails + target.trails.subrange(
                old_trails.len() as int,
                old_trails.len() as int,
            ));
        }
        for body in it: bodies
            invariant
                it.seq() == bodies@,
                g == it.index(),
                total == bodies@.len(),
                count + total <= usize::MAX,
                target == old(self)@.resolved(groups@, bodies@, now),
                old(self)@.planet_id_count == count,
                survivors == old(self)@.planets.filter(ungrouped(groups@)),
                old_trails == old(self)@.trails,
                kept@ == survivors + target.planets.subrange(
                    survivors.len() as int,
                    survivors.len() + g,
                ),
                trail_states(entries@) == old_trails + target.trails.subrange(
                    old_trails.len() as int,
                    old_trails.len() + g,
                ),
                rising_below(planet_ids(kept@), (count + g) as usize),
                rising_below(trail_ids(trail_states(entries@)), (count + g) as usize),
                all_followed(kept@, trail_states(entries@)),
        {
            let mut body = body;
            let id = count + g;
            body.id = id;
            body.spawn_protection_timer = None;
            let trail = PlanetTrail::new(body.position, now);
            proof {
                let trails = trail_states(entries@);
                let more = trails.push((id, trail@));
                assert(target.planets[survivors.len() + g] == body);
                assert(target.trails[old_trails.len() + g] == (id, trail@));
                assert(kept@.push(body) =~= survivors + target.planets.subrange(
                    survivors.len() as int,
                    survivors.len() + g + 1,
                ));
                assert(trail_states(entries@.push(TrailEntry { id, trail })) =~= more);
                assert(more =~= old_trails + target.trails.subrange(
                    old_trails.len() as int,
                    old_trails.len() + g + 1,
                ));
                assert(planet_ids(kept@.push(body)) =~= planet_ids(kept@).push(id));
                assert(trail_ids(more) =~= trail_ids(trails).push(id));
                assert(all_followed(kept@.push(body), more)) by {
                    lemma_followed_in_more(trails, seq![(id, trail@)]);
                    assert(more =~= trails + seq![(id, trail@)]);
                    assert(more[trails.len() as int].0 == id);
                }
            }
            kept.push(body);
            entries.push(TrailEntry { id, trail });
            g += 1;
        }
        proof {
            use_type_invariant(&*self);
            assert(kept@ =~= target.planets);
            assert(trail_states(entries@) =~= target.trails);
        }
        self.planet_id_count = count + total;
        self.put_trails(entries);
        self.put_planets(kept);
    }

    /// Drops the trails that are over: those whose planet is gone and whose
    /// last node has expired.
    pub fn expire_trails(&mut self)
        ensures
            final(self)@ == old(self)@.without_dead_trails(),
            final(self)@.well_formed(),
    {
        let planets = self.take_planets();
        let entries = self.take_trails();
        let ghost all = trail_states(entries@);
        let ghost alive = trail_alive::<P>();
        let ghost bound = self.planet_id_count;
        let mut kept: Vec<TrailEntry<P>> = Vec::new();
        proof {
            lemma_filter_none(all, alive);
            assert(trail_states(kept@) =~= Seq::empty());
            assert(trail_ids(trail_states(kept@)) =~= Seq::empty());
        }
        for entry in it: entries
            invariant
                it.seq() == entries@,
                alive == trail_alive::<P>(),
                all == trail_states(entries@),
                rising_below(trail_ids(all), bound),
                trail_states(kept@) == all.take(it.index()).filter(alive),
                rising_below(trail_ids(trail_states(kept@)), bound),
                forall|a: int, b: int|
                    0 <= a < kept@.len() && it.index() <= b < all.len() ==> kept@[a].id < all[b].0,
                forall|id: usize|
                    followed(all.take(it.index()), id) ==> #[trigger] followed(
                        trail_states(kept@),
                        id,
                    ),
        {
            let ghost i = it.index();
            let ghost earlier = trail_states(kept@);
            proof {
                lemma_filter_take_step(all, alive, i);
                assert(entry == entries@[i]);
                assert(all[i] == (entry.id, entry.trail@));
                assert forall|b: int| i < b < all.len() implies entry.id < all[b].0 by {
                    assert(trail_ids(all)[i] < trail_ids(all)[b]);
                }
                assert(trail_ids(all)[i] < bound);
            }
            if !entry.trail.is_dead() {
                proof {
                    assert(trail_states(kept@.push(entry)) =~= earlier.push(
                        (entry.id, entry.trail@),
                    ));
                    assert(trail_ids(earlier.push((entry.id, entry.trail@))) =~= trail_ids(
                        earlier,
                    ).push(entry.id));
                    assert forall|a: int| 0 <= a < kept@.len() implies trail_ids(earlier)[a]
                        < entry.id by {
                        assert(kept@[a].id < all[i].0);
                    }
                }
                kept.push(entry);
            }
            proof {
                let later = trail_states(kept@);
                assert forall|id: usize| followed(all.take(i + 1), id) implies #[trigger] followed(
                    later,
                    id,
                ) by {
                    let t = choose|t: int|
                        0 <= t < all.take(i + 1).len() && (#[trigger] all.take(i + 1)[t]).0 == id
                            && all.take(i + 1)[t].1.has_parent;
                    if t < i {
                        assert(all.take(i)[t] == all.take(i + 1)[t]);
                        assert(followed(all.take(i), id));
                        assert(followed(earlier, id));
                        let u = choose|u: int|
                            0 <= u < earlier.len() && (#[trigger] earlier[u]).0 == id
                                && earlier[u].1.has_parent;
                        assert(later[u] == earlier[u]);
                    } else {
                        assert(all.take(i + 1)[t] == all[i]);
                        assert(later[earlier.len() as int] == all[i]);
                    }
                }
            }
        }
        proof {
            assert(all.take(all.len() as int) =~= all);
            assert forall|a: int| 0 <= a < planets@.len() implies followed(
                trail_states(kept@),
                (#[trigger] planets@[a]).id,
            ) by {
                assert(followed(all, planets@[a].id));
            }
        }
        self.put_trails(kept);
        self.put_planets(planets);
    }

    /// Lets `dt_duration` nanoseconds of every planet's spawn protection run
    /// out. To move the planets is the host's part of the step.
    pub fn update_planets(&mut self, dt_duration: u64)
        ensures
            final(self)@ == old(self)@.aged(dt_duration),
            final(self)@.well_formed(),
    {
        let mut planets = self.take_planets();
        let ghost before = planets@;
        let mut k: usize = 0;
        while k < planets.len()
            invariant
                k <= planets@.len() == before.len(),
                forall|a: int| 0 <= a < k ==> planets@[a] == before[a].aged(dt_duration),
                forall|a: int| k <= a < before.len() ==> planets@[a] == before[a],
            decreases planets@.len() - k,
        {
            planets[k].update(dt_duration);
            k += 1;
        }
        proof {
            assert(planets@ =~= before.map_values(|p: Planet<P, V, S>| p.aged(dt_duration)));
            lemma_same_numbers(before, planets@, self@.planet_id_count, self@.trails);
        }
        self.put_planets(planets);
    }

    /// Where the planet with the number `id` is, if it exists.
    pub fn position_of(&self, id: usize) -> (position: Option<P>)
        ensures
            position == self@.position_of(id),
    {
        match self.index_of(id) {
            Some(index) => Some(self.planets[index].position),
            None => None,
        }
    }

    /// Where the planet is that draws the trail at place `index`, if it still
    /// exists: what the trail will be updated with.
    pub fn parent_position(&self, index: usize) -> (position: Option<P>)
        requires
            index < self@.trails.len(),
        ensures
            position == self@.position_of(self@.trails[index as int].0),
    {
        self.position_of(self.planet_trails[index].id)
    }

    /// Advances every trail by the step of `dt_duration` nanoseconds that ends
    /// at `now`, each with the position of its planet, or with none where the
    /// planet is gone. `apart` says of each trail, in their order, whether its
    /// planet is far enough from its newest node for another node; a trail
    /// that `apart` does not reach counts as too close.
    pub fn update_planet_trails(&mut self, dt_duration: u64, now: u64, apart: &Vec<bool>)
        ensures
            final(self)@ == old(self)@.with_trails_updated(dt_duration, now, apart@),
            final(self)@.well_formed(),
    {
        let planets = self.take_planets();
        let mut entries = self.take_trails();
        let ghost before = trail_states(entries@);
        let ghost world = old(self)@;
        let mut k: usize = 0;
        while k < entries.len()
            invariant
                k <= entries@.len() == before.len(),
                world.planets == planets@,
                world.trails == before,
                rising(planet_ids(planets@)),
                forall|a: int|
                    #![trigger before[a]]
                    0 <= a < k ==> trail_states(entries@)[a] == (
                        before[a].0,
                        before[a].1.updated(
                            dt_duration,
                            now,
                            world.position_of(before[a].0),
                            a < apart@.len() && apart@[a],
                        ),
                    ),
                forall|a: int|
                    #![trigger before[a]]
                    k <= a < before.len() ==> trail_states(entries@)[a] == before[a],
            decreases entries@.len() - k,
        {
            let parent = match find_planet(&planets, entries[k].id) {
                Some(index) => Some(planets[index].position),
                None => None,
            };
            let far = k < apart.len() && apart[k];
            let ghost earlier = entries@;
            entries[k].trail.update(dt_duration, now, parent, far);
            proof {
                assert(entries@[k as int].id == earlier[k as int].id);
                assert(trail_states(earlier)[k as int] == before[k as int]);
                assert forall|a: int| 0 <= a < before.len() && a != k implies trail_states(
                    entries@,
                )[a] == trail_states(earlier)[a] by {
                    assert(entries@[a] == earlier[a]);
                }
            }
            k += 1;
        }
        proof {
            let after = world.with_trails_updated(dt_duration, now, apart@).trails;
            assert(trail_states(entries@) =~= after);
            assert(trail_ids(after) =~= trail_ids(before));
            assert forall|a: int| 0 <= a < planets@.len() implies followed(
                after,
                (#[trigger] planets@[a]).id,
            ) by {
                let id = planets@[a].id;
                let t = choose|t: int|
                    0 <= t < before.len() && (#[trigger] before[t]).0 == id
                        && before[t].1.has_parent;
                assert(planet_ids(planets@)[a] == id);
                assert(world.has_planet(id));
                assert(after[t].0 == id);
            }
        }
        self.put_trails(entries);
        self.put_planets(planets);
    }

    /// How many nodes the trails hold together.
    pub fn node_count(&self) -> (total: u128)
        ensures
            total == node_total(self@.trails),
    {
        let mut total: u128 = 0;
        let mut k: usize = 0;
        assert(self@.trails.take(0) =~= Seq::empty());
        while k < self.planet_trails.len()
            invariant
                k <= self.planet_trails@.len(),
                total == node_total(self@.trails.take(k as int)),
                total <= k * usize::MAX,
            decreases self.planet_trails@.len() - k,
        {
            let nodes = self.planet_trails[k].trail.node_count();
            proof {
                assert(self@.trails.take(k + 1).drop_last() =~= self@.trails.take(k as int));
                assert(self@.trails.take(k + 1).last() == self@.trails[k as int]);
                assert((k + 1) * usize::MAX == k * usize::MAX + usize::MAX) by (nonlinear_arith);
                assert(k * usize::MAX <= usize::MAX * usize::MAX) by (nonlinear_arith)
                    requires
                        k <= usize::MAX,
                ;
                assert(usize::MAX * usize::MAX < u128::MAX - usize::MAX) by (nonlinear_arith)
                    requires
                        usize::MAX <= 0xffff_ffff_ffff_ffff,
                ;
            }
            total = total + nodes as u128;
            k += 1;
        }
        assert(self@.trails.take(k as int) =~= self@.trails);
        total
    }

    /// Starts a pass over all pairs of the planets as they are now. The
    /// places that the pass names are places among the planets of this world.
    pub fn begin_scan(&self, policy: ProtectionPolicy) -> (scan: PairScan)
        ensures
            scan@ == (ScanState {
                bodies: self@.scan_bodies(),
                first: 0,
                second: 1,
                groups: Seq::empty(),
                policy,
            }),
            scan@.well_formed(),
    {
        let mut bodies: Vec<(usize, bool)> = Vec::new();
        let mut k: usize = 0;
        while k < self.planets.len()
            invariant
                k <= self.planets@.len(),
                bodies@.len() == k,
                forall|a: int|
                    0 <= a < k ==> bodies@[a] == (
                        self.planets@[a].id,
                        self.planets@[a].spawn_protection_timer.is_some(),
                    ),
            decreases self.planets@.len() - k,
        {
            let planet = &self.planets[k];
            bodies.push((planet.id, planet.has_spawn_protection()));
            k += 1;
        }
        assert(bodies@ =~= self@.scan_bodies());
        PairScan::new(bodies, policy)
    }

    /// The place of the planet with the number `id`, if it exists.
    pub fn index_of(&self, id: usize) -> (found: Option<usize>)
        ensures
            self@.well_formed(),
            match found {
                Some(index) => self@.has_planet(id) && index == self@.index_of(id) && index
                    < self@.planets.len() && self@.planets[index as int].id == id,
                None => !self@.has_planet(id),
            },
    {
        proof {
            use_type_invariant(self);
        }
        find_planet(&self.planets, id)
    }
}

/// In numbers that rise, the place where a number stands is the only one.
pub proof fn lemma_place_in_rising(ids: Seq<usize>, id: usize, k: int)
    requires
        rising(ids),
        0 <= k < ids.len(),
        ids[k] == id,
    ensures
        ids.contains(id),
        ids.index_of(id) == k,
{
    let l = ids.index_of(id);
    assert(0 <= l < ids.len() && ids[l] == id);
    if l < k {
        assert(ids[l] < ids[k]);
    } else if k < l {
        assert(ids[k] < ids[l]);
    }
}

/// Numbers that rise still rise when one of them is taken out.
pub proof fn lemma_rising_remove(ids: Seq<usize>, bound: usize, k: int)
    requires
        rising_below(ids, bound),
        0 <= k < ids.len(),
    ensures
        rising_below(ids.remove(k), bound),
{
    ids.remove_ensures(k);
}

/// Planets that keep their numbers keep their order and their trails.
pub proof fn lemma_same_numbers<P, V, S>(
    before: Seq<Planet<P, V, S>>,
    after: Seq<Planet<P, V, S>>,
    bound: usize,
    trails: Seq<(usize, TrailState<P>)>,
)
    requires
        after.len() == before.len(),
        forall|a: int| 0 <= a < before.len() ==> (#[trigger] after[a]).id == before[a].id,
        rising_below(planet_ids(before), bound),
        all_followed(before, trails),
    ensures
        planet_ids(after) == planet_ids(before),
        rising_below(planet_ids(after), bound),
        all_followed(after, trails),
{
    assert(planet_ids(after) =~= planet_ids(before));
    assert forall|a: int| 0 <= a < after.len() implies followed(
        trails,
        (#[trigger] after[a]).id,
    ) by {
        assert(followed(trails, before[a].id));
    }
}

/// A planet that has its trail among some trails has it among more.
pub proof fn lemma_followed_in_more<P>(
    trails: Seq<(usize, TrailState<P>)>,
    more: Seq<(usize, TrailState<P>)>,
)
    ensures
        forall|id: usize| followed(trails, id) ==> #[trigger] followed(trails + more, id),
{
    assert forall|id: usize| followed(trails, id) implies #[trigger] followed(trails + more, id) by {
        let t = choose|t: int|
            0 <= t < trails.len() && (#[trigger] trails[t]).0 == id && trails[t].1.has_parent;
        assert((trails + more)[t] == trails[t]);
    }
}

} // verus!
