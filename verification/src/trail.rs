//! The trail of a planet: where it has been during the last moments, oldest
//! position first. What a position is, is the host's matter: the trail keeps
//! positions of any type `P` and never looks inside one.

use crate::clock::{
    age, age_at, drop_expired, expired_at, expired_front, lemma_expired_front, stamps, Stamped,
};
use std::collections::VecDeque;
use vstd::prelude::*;

verus! {

/// The time between two nodes of a trail, in nanoseconds.
pub const PLANET_TRAIL_NODE_PLACEMENT_PERIOD: u64 = 20_000_000;

/// The time after which a node leaves its trail, in nanoseconds.
pub const PLANET_TRAIL_NODE_LIFETIME: u64 = 700_000_000;

/// A position that a planet has passed, and when.
pub struct PlanetTrailNode<P> {
    pub pos: P,
    pub time_created: u64,
}

impl<P> PlanetTrailNode<P> {
    /// What is left of the node's lifetime at `now`, in nanoseconds.
    pub open spec fn spec_remaining(&self, now: u64) -> nat {
        if age_at(now, self.time_created) >= PLANET_TRAIL_NODE_LIFETIME {
            0
        } else {
            (PLANET_TRAIL_NODE_LIFETIME - age_at(now, self.time_created)) as nat
        }
    }

    /// What is left of the node's lifetime at `now`, in nanoseconds: the whole
    /// lifetime for a node placed just now, zero for one that has expired.
    pub fn remaining(&self, now: u64) -> (left: u64)
        ensures
            left == self.spec_remaining(now),
    {
        let a = age(now, self.time_created);
        if a >= PLANET_TRAIL_NODE_LIFETIME {
            0
        } else {
            PLANET_TRAIL_NODE_LIFETIME - a
        }
    }
}

/// What a trail holds, as mathematics sees it.
pub ghost struct TrailState<P> {
    /// The nodes, oldest first.
    pub nodes: Seq<PlanetTrailNode<P>>,
    /// The time that has passed towards the next node.
    pub timer: u64,
    /// Whether the planet was still there at the last update.
    pub has_parent: bool,
}

impl<P> Stamped for PlanetTrailNode<P> {
    open spec fn stamp(&self) -> u64 {
        self.time_created
    }

    fn made_at(&self) -> (t: u64) {
        self.time_created
    }
}

/// The nodes that a trail keeps at `now`: all from the first that has not
/// outlived the lifetime of a node.
pub open spec fn surviving<P>(nodes: Seq<PlanetTrailNode<P>>, now: u64) -> Seq<PlanetTrailNode<P>> {
    crate::clock::surviving(nodes, now, PLANET_TRAIL_NODE_LIFETIME)
}

/// The nodes after an attempt to place one at `pos`: it is placed behind the
/// newest node if the planet is `apart` from that node. A trail that has no
/// node left has nothing to be apart from, and the node is placed.
pub open spec fn placed<P>(
    nodes: Seq<PlanetTrailNode<P>>,
    pos: P,
    apart: bool,
    now: u64,
) -> Seq<PlanetTrailNode<P>> {
    if nodes.len() == 0 || apart {
        nodes.push(PlanetTrailNode { pos, time_created: now })
    } else {
        nodes
    }
}

/// What is left of `total` nanoseconds on the timer once every whole period
/// but the last has been taken off: at most one period, and nothing is lost.
pub open spec fn carried(total: int) -> int {
    if total > PLANET_TRAIL_NODE_PLACEMENT_PERIOD {
        total - ((total - 1) / (PLANET_TRAIL_NODE_PLACEMENT_PERIOD as int))
            * PLANET_TRAIL_NODE_PLACEMENT_PERIOD
    } else {
        total
    }
}

impl<P> TrailState<P> {
    /// The trail of a planet that starts at `start_pos` at the time `now`: it
    /// has its first node there.
    pub open spec fn started(start_pos: P, now: u64) -> Self {
        TrailState {
            nodes: seq![PlanetTrailNode { pos: start_pos, time_created: now }],
            timer: 0,
            has_parent: true,
        }
    }

    /// The trail after the step of `dt` nanoseconds that ends at `now`.
    ///
    /// Expired nodes leave at the front. With the planet at `Some` position,
    /// `dt` is added to the timer, and when it has passed the period a node is
    /// placed there as `placed` says, among the nodes that are left; `apart`
    /// tells whether the planet is farther from the newest node than the
    /// least distance between nodes.
    /// With `None` the planet is gone, and the trail only ages.
    pub open spec fn updated(self, dt: u64, now: u64, parent_pos: Option<P>, apart: bool) -> Self {
        let kept = surviving(self.nodes, now);
        match parent_pos {
            Some(pos) => TrailState {
                nodes: if self.timer + dt > PLANET_TRAIL_NODE_PLACEMENT_PERIOD {
                    placed(kept, pos, apart, now)
                } else {
                    kept
                },
                timer: carried(self.timer + dt) as u64,
                has_parent: true,
            },
            None => TrailState { nodes: kept, timer: self.timer, has_parent: false },
        }
    }
}

/// The trail of one planet.
pub struct PlanetTrail<P> {
    nodes: VecDeque<PlanetTrailNode<P>>,
    node_placement_timer: u64,
    has_parent: bool,
}

impl<P> View for PlanetTrail<P> {
    type V = TrailState<P>;

    closed spec fn view(&self) -> TrailState<P> {
        TrailState {
            nodes: self.nodes@,
            timer: self.node_placement_timer,
            has_parent: self.has_parent,
        }
    }
}

impl<P> PlanetTrail<P> {
    /// The trail of a planet that starts at `start_pos` at the time `now`.
    pub fn new(start_pos: P, now: u64) -> (r: Self)
        ensures
            r@ == TrailState::started(start_pos, now),
    {
        let mut nodes = VecDeque::with_capacity(36);
        nodes.push_back(PlanetTrailNode { pos: start_pos, time_created: now });
        assert(nodes@ =~= seq![PlanetTrailNode { pos: start_pos, time_created: now }]);
        PlanetTrail { nodes, node_placement_timer: 0, has_parent: true }
    }

    /// Advances the trail by the step of `dt_duration` nanoseconds that ends at `now`.
    pub fn update(&mut self, dt_duration: u64, now: u64, parent_pos: Option<P>, apart: bool)
        ensures
            final(self)@ == old(self)@.updated(dt_duration, now, parent_pos, apart),
    {
        self.kill_dead_nodes(now);
        match parent_pos {
            Some(pos) => {
                self.has_parent = true;
                let period: u128 = PLANET_TRAIL_NODE_PLACEMENT_PERIOD as u128;
                let total: u128 = self.node_placement_timer as u128 + dt_duration as u128;
                if total > period {
                    self.add_node(pos, apart, now);
                    let whole: u128 = (total - 1) / period;
                    self.node_placement_timer = (total - whole * period) as u64;
                } else {
                    self.node_placement_timer = total as u64;
                }
            },
            None => {
                self.has_parent = false;
            },
        }
    }

    /// Drops the nodes at the front that have expired at `now`.
    fn kill_dead_nodes(&mut self, now: u64)
        ensures
            final(self)@ == (TrailState { nodes: surviving(old(self)@.nodes, now), ..old(self)@ }),
    {
        drop_expired(&mut self.nodes, now, PLANET_TRAIL_NODE_LIFETIME);
    }

    /// The node at place `k`, counted from the oldest.
    pub fn node(&self, k: usize) -> (r: &PlanetTrailNode<P>)
        requires
            k < self@.nodes.len(),
        ensures
            *r == self@.nodes[k as int],
    {
        &self.nodes[k]
    }

    /// The newest node, from which the next one must be apart.
    pub fn newest(&self) -> (r: Option<&PlanetTrailNode<P>>)
        ensures
            match r {
                Some(node) => self@.nodes.len() > 0 && *node == self@.nodes.last(),
                None => self@.nodes.len() == 0,
            },
    {
        let n = self.nodes.len();
        if n == 0 {
            None
        } else {
            Some(&self.nodes[n - 1])
        }
    }

    /// Whether the planet was still there at the last update.
    pub fn has_parent(&self) -> (r: bool)
        ensures
            r == self@.has_parent,
    {
        self.has_parent
    }

    /// How many nodes the trail holds.
    pub fn node_count(&self) -> (n: usize)
        ensures
            n == self@.nodes.len(),
    {
        self.nodes.len()
    }

    /// Whether the trail is over: its planet is gone and its last node has expired.
    pub fn is_dead(&self) -> (dead: bool)
        ensures
            dead == (self@.nodes.len() == 0 && !self@.has_parent),
    {
        self.nodes.len() == 0 && !self.has_parent
    }

    /// Places a node at `pos`, stamped `now`, if the planet is `apart` from
    /// the newest node, or if the trail has no node left.
    pub fn add_node(&mut self, pos: P, apart: bool, now: u64)
        ensures
            final(self)@ == (TrailState {
                nodes: placed(old(self)@.nodes, pos, apart, now),
                ..old(self)@
            }),
    {
        let can_place = self.nodes.len() == 0 || apart;
        if can_place {
            self.nodes.push_back(PlanetTrailNode { pos, time_created: now });
        }
    }
}

/// The timer loses no time: what it carries on differs from what has passed
/// by whole periods, and it carries on no more than one period.
pub proof fn lemma_carried_loses_no_time(total: int)
    requires
        0 <= total,
    ensures
        0 <= carried(total) <= total,
        carried(total) <= PLANET_TRAIL_NODE_PLACEMENT_PERIOD,
        (total - carried(total)) % (PLANET_TRAIL_NODE_PLACEMENT_PERIOD as int) == 0,
        total > 0 ==> carried(total) > 0,
{
    let period = PLANET_TRAIL_NODE_PLACEMENT_PERIOD as int;
    if total > period {
        let whole = (total - 1) / period;
        vstd::arithmetic::div_mod::lemma_fundamental_div_mod(total - 1, period);
        vstd::arithmetic::div_mod::lemma_mod_multiples_basic(whole, period);
        assert(whole * period == period * whole) by (nonlinear_arith);
    }
}

/// While its planet is there and none of its nodes has expired, a trail loses
/// no node; and it gains one whenever the timer passes the period with the
/// planet apart from the newest node, or with no node left.
pub proof fn lemma_followed_trail_grows<P>(
    trail: TrailState<P>,
    dt: u64,
    now: u64,
    pos: P,
    apart: bool,
)
    requires
        trail.nodes.len() == 0 || !expired_at(
            trail.nodes[0].time_created,
            now,
            PLANET_TRAIL_NODE_LIFETIME,
        ),
    ensures
        trail.updated(dt, now, Some(pos), apart).nodes.len() >= trail.nodes.len(),
        trail.updated(dt, now, Some(pos), apart).nodes.len() == trail.nodes.len() + 1 <==> (
        trail.timer + dt > PLANET_TRAIL_NODE_PLACEMENT_PERIOD && (apart || trail.nodes.len() == 0)),
        trail.updated(dt, now, Some(pos), apart).has_parent,
{
    assert(surviving(trail.nodes, now) =~= trail.nodes);
}

/// Once its planet is gone a trail only loses nodes: what is left is the newer
/// end of what was there, less than before whenever the oldest node has
/// expired, and nothing once the newest has; the trail is then dead.
pub proof fn lemma_orphaned_trail_drains<P>(trail: TrailState<P>, dt: u64, now: u64, apart: bool)
    ensures
        trail.updated(dt, now, None, apart).nodes.len() <= trail.nodes.len(),
        trail.updated(dt, now, None, apart).nodes == trail.nodes.skip(
            trail.nodes.len() - trail.updated(dt, now, None, apart).nodes.len(),
        ),
        trail.nodes.len() > 0 && expired_at(
            trail.nodes[0].time_created,
            now,
            PLANET_TRAIL_NODE_LIFETIME,
        ) ==> trail.updated(dt, now, None, apart).nodes.len() < trail.nodes.len(),
        (forall|k: int|
            0 <= k < trail.nodes.len() ==> expired_at(
                (#[trigger] trail.nodes[k]).time_created,
                now,
                PLANET_TRAIL_NODE_LIFETIME,
            )) ==> trail.updated(dt, now, None, apart).nodes.len() == 0,
        !trail.updated(dt, now, None, apart).has_parent,
{
    let made = stamps(trail.nodes);
    lemma_expired_front(made, now, PLANET_TRAIL_NODE_LIFETIME);
    let gone = expired_front(made, now, PLANET_TRAIL_NODE_LIFETIME);
    if gone < trail.nodes.len() {
        assert(made[gone as int] == trail.nodes[gone as int].time_created);
    }
}

/// The nodes were placed one after the other: no node is older than one
/// behind it.
pub open spec fn stamps_rise<P>(nodes: Seq<PlanetTrailNode<P>>) -> bool {
    forall|a: int, b: int|
        0 <= a <= b < nodes.len() ==> nodes[a].time_created <= nodes[b].time_created
}

/// Once its planet is gone, a trail whose nodes were placed one after the
/// other is empty and dead as soon as its newest node has expired, whatever
/// the length of the step.
pub proof fn lemma_orphaned_trail_dies<P>(trail: TrailState<P>, dt: u64, now: u64, apart: bool)
    requires
        stamps_rise(trail.nodes),
        trail.nodes.len() > 0 ==> expired_at(
            trail.nodes.last().time_created,
            now,
            PLANET_TRAIL_NODE_LIFETIME,
        ),
    ensures
        trail.updated(dt, now, None, apart).nodes.len() == 0,
        !trail.updated(dt, now, None, apart).has_parent,
{
    assert forall|k: int| 0 <= k < trail.nodes.len() implies expired_at(
        (#[trigger] trail.nodes[k]).time_created,
        now,
        PLANET_TRAIL_NODE_LIFETIME,
    ) by {
        assert(trail.nodes[k].time_created <= trail.nodes[trail.nodes.len() - 1].time_created);
    }
    lemma_orphaned_trail_drains(trail, dt, now, apart);
}

} // verus!
