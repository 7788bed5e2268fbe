//! Time as the simulation counts it: whole nanoseconds.

use std::collections::VecDeque;
use vstd::prelude::*;

verus! {

/// How long ago `created` lies, seen from `now`; zero when `created` is not in the past.
pub open spec fn age_at(now: u64, created: u64) -> nat {
    if now >= created {
        (now - created) as nat
    } else {
        0
    }
}

/// The age at `now` of something stamped `created`.
pub fn age(now: u64, created: u64) -> (a: u64)
    ensures
        a == age_at(now, created),
{
    if now >= created {
        now - created
    } else {
        0
    }
}

/// What was stamped `created` has outlived `lifetime` at `now`.
pub open spec fn expired_at(created: u64, now: u64, lifetime: u64) -> bool {
    age_at(now, created) >= lifetime
}

/// How many of the stamps at the front have outlived `lifetime` at `now`,
/// counted up to the first one that has not.
pub open spec fn expired_front(stamps: Seq<u64>, now: u64, lifetime: u64) -> nat
    decreases stamps.len(),
{
    if stamps.len() == 0 || !expired_at(stamps[0], now, lifetime) {
        0
    } else {
        1 + expired_front(stamps.drop_first(), now, lifetime)
    }
}

/// `expired_front` counts exactly the expired stamps before the first stamp
/// that has not expired.
pub proof fn lemma_expired_front(stamps: Seq<u64>, now: u64, lifetime: u64)
    ensures
        expired_front(stamps, now, lifetime) <= stamps.len(),
        forall|k: int|
            0 <= k < expired_front(stamps, now, lifetime) ==> expired_at(
                #[trigger] stamps[k],
                now,
                lifetime,
            ),
        expired_front(stamps, now, lifetime) < stamps.len() ==> !expired_at(
            stamps[expired_front(stamps, now, lifetime) as int],
            now,
            lifetime,
        ),
    decreases stamps.len(),
{
    if stamps.len() > 0 && expired_at(stamps[0], now, lifetime) {
        let rest = stamps.drop_first();
        lemma_expired_front(rest, now, lifetime);
        assert forall|k: int| 0 <= k < expired_front(stamps, now, lifetime) implies expired_at(
            #[trigger] stamps[k],
            now,
            lifetime,
        ) by {
            if k > 0 {
                assert(stamps[k] == rest[k - 1]);
            }
        }
        if expired_front(stamps, now, lifetime) < stamps.len() {
            assert(stamps[expired_front(stamps, now, lifetime) as int] == rest[expired_front(
                rest,
                now,
                lifetime,
            ) as int]);
        }
    }
}

/// Whether what was stamped `created` has outlived `lifetime` at `now`.
pub fn has_expired(created: u64, now: u64, lifetime: u64) -> (expired: bool)
    ensures
        expired == expired_at(created, now, lifetime),
{
    age(now, created) >= lifetime
}

/// What carries the time at which it was made.
pub trait Stamped {
    /// When it was made.
    spec fn stamp(&self) -> u64;

    /// When it was made.
    fn made_at(&self) -> (t: u64)
        ensures
            t == self.stamp(),
    ;
}

/// When each of the items was made.
pub open spec fn stamps<T: Stamped>(items: Seq<T>) -> Seq<u64> {
    items.map_values(|item: T| item.stamp())
}

/// The items that are kept at `now`: all from the first that has not
/// outlived `lifetime`.
pub open spec fn surviving<T: Stamped>(items: Seq<T>, now: u64, lifetime: u64) -> Seq<T> {
    items.skip(expired_front(stamps(items), now, lifetime) as int)
}

/// Drops the items at the front that have outlived `lifetime` at `now`.
pub fn drop_expired<T: Stamped>(items: &mut VecDeque<T>, now: u64, lifetime: u64)
    ensures
        final(items)@ == surviving(old(items)@, now, lifetime),
{
    let ghost before = items@;
    let ghost mut dropped: nat = 0;
    assert(before.skip(0) =~= before);
    while items.len() > 0 && has_expired(items[0].made_at(), now, lifetime)
        invariant
            dropped <= before.len(),
            items@ == before.skip(dropped as int),
            expired_front(stamps(before), now, lifetime) == dropped + expired_front(
                stamps(items@),
                now,
                lifetime,
            ),
        decreases items@.len(),
    {
        proof {
            assert(items@.drop_first() =~= before.skip(dropped as int + 1));
            assert(stamps(items@).drop_first() =~= stamps(items@.drop_first()));
            dropped = dropped + 1;
        }
        items.pop_front();
    }
}

} // verus!
