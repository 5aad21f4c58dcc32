//! The epoch clock: a genesis timestamp, elapsed seconds and the epoch
//! number derived from them.  Reading the wall clock is nondeterministic,
//! so every clocked operation also exists in an `_at` form taking the
//! current time as an argument; those forms carry the exact contracts.

use vstd::prelude::*;

verus! {

/// Half the epoch length in seconds; an epoch lasts `2 * DELTA` seconds.
pub const DELTA: u64 = 60;

/// A Unix timestamp in seconds, fixed at genesis.
#[derive(Clone, Copy, PartialEq, Eq, Structural, Debug)]
pub struct Timestamp(pub i64);

/// Seconds elapsed since `genesis` at time `now`, clamped at zero when the
/// clock reads before genesis.
pub open spec fn spec_elapsed(genesis: i64, now: i64) -> u64 {
    if now >= genesis {
        (now - genesis) as u64
    } else {
        0
    }
}

/// The epoch number at time `now`: elapsed seconds divided by the epoch
/// length.
pub open spec fn spec_epoch(genesis: i64, now: i64) -> u64 {
    (spec_elapsed(genesis, now) / 120) as u64
}

/// Seconds from `now` until the next epoch boundary, clamped into `u64`.
pub open spec fn spec_secs_until_next_epoch(genesis: i64, now: i64) -> u64 {
    let next = (spec_epoch(genesis, now) + 1) * 120 + genesis;
    if next - now < 0 {
        0
    } else if next - now > u64::MAX {
        u64::MAX
    } else {
        (next - now) as u64
    }
}

impl Timestamp {
    /// Seconds elapsed since this timestamp at time `now`.
    pub fn elapsed_at(&self, now: i64) -> (r: u64)
        ensures
            r == spec_elapsed(self.0, now),
    {
        if now >= self.0 {
            let d: i128 = now as i128 - self.0 as i128;
            d as u64
        } else {
            0
        }
    }

    /// Seconds elapsed since this timestamp, read from the wall clock.
    pub fn elapsed(&self) -> (r: u64)
        ensures
            exists|now: i64| r == spec_elapsed(self.0, now),
    {
        let now = unix_now();
        let r = self.elapsed_at(now);
        proof {
            assert(r == spec_elapsed(self.0, now));
        }
        r
    }
}

/// The epoch number at time `now` for the given genesis time.
pub fn current_epoch_at(genesis: Timestamp, now: i64) -> (r: u64)
    ensures
        r == spec_epoch(genesis.0, now),
{
    genesis.elapsed_at(now) / 120
}

/// Seconds from `now` until the next epoch boundary.
pub fn secs_until_next_epoch_at(genesis: Timestamp, now: i64) -> (r: u64)
    ensures
        r == spec_secs_until_next_epoch(genesis.0, now),
{
    let e = current_epoch_at(genesis, now);
    let next: i128 = (e as i128 + 1) * 120 + genesis.0 as i128;
    let d: i128 = next - now as i128;
    if d < 0 {
        0
    } else if d > u64::MAX as i128 {
        u64::MAX
    } else {
        d as u64
    }
}

/// Relies on chrono's `Utc::now`: the current Unix timestamp in seconds.
/// Nothing is promised of the value; callers treat the clock as
/// nondeterministic.
#[verifier::external_body]
pub fn unix_now() -> i64 {
    chrono::Utc::now().timestamp()
}

} // verus!
