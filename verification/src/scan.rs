//! The pass over all pairs of planets: in which order the pairs come, and
//! what happens to each pair once the host has said whether the two overlap.

use crate::grouping::{
    grouped, grouping, joined, lemma_joined, lemma_joined_len, well_grouped, CollisionGroups,
};
use vstd::prelude::*;

verus! {

/// What spawn protection means for gravity.
#[derive(Clone, Copy, PartialEq, Eq, Debug, Structural)]
pub enum ProtectionPolicy {
    /// A protected planet attracts and is attracted like any other, as long
    /// as the two do not overlap.
    AttractWhenApart,
    /// No gravity acts between two planets of which one is protected.
    NeverAttract,
}

/// What is done with a pair of planets.
#[derive(Clone, Copy, PartialEq, Eq, Debug, Structural)]
pub enum PairAction {
    /// Gravity pulls each towards the other.
    Attract,
    /// The two have collided and will merge.
    Collide,
    /// Nothing happens between the two in this step.
    Skip,
}

/// What is done with a pair: overlapping planets collide, unless one of them
/// is protected, and then nothing happens; planets that are apart attract
/// each other, unless one is protected and the policy forbids it.
pub open spec fn action_for(overlapping: bool, protected: bool, policy: ProtectionPolicy) -> PairAction {
    if overlapping {
        if protected {
            PairAction::Skip
        } else {
            PairAction::Collide
        }
    } else if protected && policy == ProtectionPolicy::NeverAttract {
        PairAction::Skip
    } else {
        PairAction::Attract
    }
}

/// Decides what is done with a pair of which the host knows whether the two
/// overlap and whether one of them is under spawn protection.
pub fn pair_action(overlapping: bool, protected: bool, policy: ProtectionPolicy) -> (action:
    PairAction)
    ensures
        action == action_for(overlapping, protected, policy),
{
    if overlapping {
        if protected {
            PairAction::Skip
        } else {
            PairAction::Collide
        }
    } else if protected && policy == ProtectionPolicy::NeverAttract {
        PairAction::Skip
    } else {
        PairAction::Attract
    }
}

/// The pair that comes after the pair of places `(first, second)` among `n`
/// planets: the same first planet with the next second one, or else the next
/// first planet with the one behind it. After the last pair comes `(first, n)`,
/// which is no pair.
pub open spec fn next_pair(n: nat, first: nat, second: nat) -> (nat, nat) {
    if second + 1 < n {
        (first, second + 1)
    } else if first + 2 < n {
        (first + 1, first + 2)
    } else {
        (first, n)
    }
}

/// `(first, second)` is a pair of places among `n` planets.
pub open spec fn is_pair(n: nat, first: nat, second: nat) -> bool {
    first < second < n
}

/// The pair `a` comes before the pair `b`.
pub open spec fn comes_before(a: (nat, nat), b: (nat, nat)) -> bool {
    a.0 < b.0 || (a.0 == b.0 && a.1 < b.1)
}

/// A pass in progress, as mathematics sees it.
pub ghost struct ScanState {
    /// The planets of the pass: the number of each and whether it is protected.
    pub bodies: Seq<(usize, bool)>,
    /// The place of the first planet of the pair that comes next.
    pub first: nat,
    /// The place of its second planet; the pass is over when there is none.
    pub second: nat,
    /// The collision groups found so far, made of the planets' numbers.
    pub groups: Seq<Seq<usize>>,
    pub policy: ProtectionPolicy,
}

/// Every planet in the groups is one of `bodies`, and is not protected.
pub open spec fn drawn_from(groups: Seq<Seq<usize>>, bodies: Seq<(usize, bool)>) -> bool {
    forall|x: usize| #[trigger]
        grouped(groups, x) ==> exists|a: int| 0 <= a < bodies.len() && #[trigger] bodies[a] == (
            x,
            false,
        )
}

impl ScanState {
    /// The groups are well formed and made of unprotected planets of the
    /// pass, and there are fewer groups than planets.
    pub open spec fn well_formed(self) -> bool {
        &&& self.first < self.second
        &&& well_grouped(self.groups)
        &&& drawn_from(self.groups, self.bodies)
        &&& self.groups.len() == 0 || self.first + 1 < self.bodies.len()
        &&& self.groups.len() <= self.first + if self.groups.len() > 0 && grouped(
            self.groups,
            self.bodies[self.first as int].0,
        ) {
            1nat
        } else {
            0nat
        }
    }

    /// A pair is left to decide.
    pub open spec fn active(self) -> bool {
        is_pair(self.bodies.len(), self.first, self.second)
    }

    /// What is done with the pair that comes next, if the two overlap as said.
    pub open spec fn action(self, overlapping: bool) -> PairAction {
        action_for(
            overlapping,
            self.bodies[self.first as int].1 || self.bodies[self.second as int].1,
            self.policy,
        )
    }

    /// The pass after the pair that comes next has been decided: if the two
    /// collide, their numbers are grouped, and the next pair comes up.
    pub open spec fn decided(self, overlapping: bool) -> Self {
        let (first, second) = next_pair(self.bodies.len(), self.first, self.second);
        ScanState {
            first,
            second,
            groups: if self.action(overlapping) == PairAction::Collide {
                joined(
                    self.groups,
                    self.bodies[self.first as int].0,
                    self.bodies[self.second as int].0,
                )
            } else {
                self.groups
            },
            ..self
        }
    }
}

/// One pass over all pairs of planets.
pub struct PairScan {
    bodies: Vec<(usize, bool)>,
    first: usize,
    second: usize,
    groups: CollisionGroups,
    policy: ProtectionPolicy,
}

impl View for PairScan {
    type V = ScanState;

    closed spec fn view(&self) -> ScanState {
        ScanState {
            bodies: self.bodies@,
            first: self.first as nat,
            second: self.second as nat,
            groups: self.groups@,
            policy: self.policy,
        }
    }
}

impl PairScan {
    #[verifier::type_invariant]
    spec fn inv(&self) -> bool {
        self@.well_formed()
    }

    /// A pass over the planets in `bodies`, each given by its number and by
    /// whether it is under spawn protection. It starts at the pair of the
    /// first two.
    pub fn new(bodies: Vec<(usize, bool)>, policy: ProtectionPolicy) -> (scan: Self)
        ensures
            scan@ == (ScanState {
                bodies: bodies@,
                first: 0,
                second: 1,
                groups: Seq::empty(),
                policy,
            }),
            scan@.well_formed(),
    {
        PairScan { bodies, first: 0, second: 1, groups: CollisionGroups::new(), policy }
    }

    /// The places of the two planets whose pair comes next, or `None` when
    /// the pass is over.
    pub fn current(&self) -> (pair: Option<(usize, usize)>)
        ensures
            match pair {
                Some((first, second)) => self@.active() && first == self@.first && second
                    == self@.second,
                None => !self@.active(),
            },
    {
        proof {
            use_type_invariant(self);
        }
        if self.second < self.bodies.len() {
            Some((self.first, self.second))
        } else {
            None
        }
    }

    /// Decides the pair that comes next, of which the host says whether the
    /// two overlap, and goes on to the pair after it. Returns what is to be
    /// done with the pair, or `None`, and changes nothing, when the pass is over.
    pub fn decide(&mut self, overlapping: bool) -> (action: Option<PairAction>)
        ensures
            match action {
                Some(action) => old(self)@.active() && action == old(self)@.action(overlapping)
                    && final(self)@ == old(self)@.decided(overlapping),
                None => !old(self)@.active() && final(self)@ == old(self)@,
            },
            final(self)@.well_formed(),
    {
        proof {
            use_type_invariant(&*self);
        }
        let n = self.bodies.len();
        if self.second >= n {
            return None;
        }
        let (i, a) = self.bodies[self.first];
        let (j, b) = self.bodies[self.second];
        let action = pair_action(overlapping, a || b, self.policy);
        let mut groups = CollisionGroups::new();
        core::mem::swap(&mut self.groups, &mut groups);
        let ghost before = groups@;
        if action == PairAction::Collide {
            proof {
                lemma_joined(before, i, j);
                assert(self.bodies@[self.first as int] == (i, false));
                assert(self.bodies@[self.second as int] == (j, false));
            }
            groups.record(i, j);
        }
        let ghost after = groups@;
        proof {
            let bodies = self.bodies@;
            assert(bodies[self.first as int].0 == i);
            assert(well_grouped(after));
            assert(drawn_from(after, bodies)) by {
                assert forall|x: usize| #[trigger] grouped(after, x) implies exists|a: int|
                    0 <= a < bodies.len() && #[trigger] bodies[a] == (x, false) by {
                    if grouped(before, x) {
                    } else if x == i {
                        assert(bodies[self.first as int] == (x, false));
                    } else {
                        assert(bodies[self.second as int] == (x, false));
                    }
                }
            }
            lemma_joined_len(before, i, j);
            assert(after.len() <= self.first + if after.len() > 0 && grouped(after, i) {
                1nat
            } else {
                0nat
            });
        }
        if self.second + 1 < n {
            self.second = self.second + 1;
            core::mem::swap(&mut self.groups, &mut groups);
        } else if n - self.first > 2 {
            self.second = self.first + 2;
            self.first = self.first + 1;
            core::mem::swap(&mut self.groups, &mut groups);
        } else {
            self.second = n;
            core::mem::swap(&mut self.groups, &mut groups);
        }
        Some(action)
    }

    /// The collision groups found so far.
    pub fn groups(&self) -> (groups: &CollisionGroups)
        ensures
            groups@ == self@.groups,
            self@.well_formed(),
    {
        proof {
            use_type_invariant(self);
        }
        &self.groups
    }

    /// Ends the pass and hands out the collision groups that it has found.
    pub fn finish(self) -> (groups: CollisionGroups)
        ensures
            groups@ == self@.groups,
            self@.well_formed(),
    {
        proof {
            use_type_invariant(&self);
        }
        self.groups
    }
}

/// The groups of a pass are the grouping of the collisions that it has
/// decided: where they were so before a pair is decided, they are so after,
/// with the pair added to the collisions if the two collide.
pub proof fn lemma_pass_groups_its_collisions(
    scan: ScanState,
    overlapping: bool,
    collisions: Seq<(usize, usize)>,
)
    requires
        scan.active(),
        scan.groups == grouping(collisions),
    ensures
        scan.decided(overlapping).groups == grouping(
            if scan.action(overlapping) == PairAction::Collide {
                collisions.push(
                    (scan.bodies[scan.first as int].0, scan.bodies[scan.second as int].0),
                )
            } else {
                collisions
            },
        ),
{
    let pair = (scan.bodies[scan.first as int].0, scan.bodies[scan.second as int].0);
    assert(collisions.push(pair).drop_last() =~= collisions);
}

/// In a well-formed pass there are no more groups than planets.
pub proof fn lemma_fewer_groups_than_bodies(scan: ScanState)
    requires
        scan.well_formed(),
    ensures
        scan.groups.len() <= scan.bodies.len(),
{
}

/// The pairs come one after the other with none left out: the pair after a
/// pair comes later, and no pair lies between the two.
pub proof fn lemma_next_pair_is_next(n: nat, first: nat, second: nat, a: nat, b: nat)
    requires
        is_pair(n, first, second),
        is_pair(n, a, b),
    ensures
        comes_before((first, second), next_pair(n, first, second)),
        !(comes_before((first, second), (a, b)) && comes_before((a, b), next_pair(n, first, second))),
        is_pair(n, next_pair(n, first, second).0, next_pair(n, first, second).1) || (first + 2 == n
            && second + 1 == n),
{
}

} // verus!
