//! The server clock and the random source: the two inputs of the game that
//! depend on the machine rather than on the game's state.

use rand::Rng;
use vstd::prelude::*;

verus! {

/// The current wall-clock time, in nanoseconds since the Unix epoch
/// (`SystemTime::elapsed` of `UNIX_EPOCH`; 0 for a clock set before it).
/// Nothing is promised of the value: it depends on the machine's clock, and
/// two calls may return any two values. Every deadline of the game is an
/// instant of this clock, so a change of the system time shifts them all
/// together: a monotonic `Instant` has no fixed origin to count from, and
/// one captured at start-up would have to live in process-wide state.
#[verifier::external_body]
pub(crate) fn now_nanos() -> u64 {
    match std::time::UNIX_EPOCH.elapsed() {
        Ok(d) => d.as_nanos() as u64,
        Err(_) => 0,
    }
}

/// A random number in `0..n`, drawn from the thread-local generator
/// (`rand::thread_rng().gen_range(0..n)`, which panics on an empty range,
/// hence `n > 0`). Only its range is promised.
#[verifier::external_body]
pub(crate) fn random_below(n: u32) -> (r: u32)
    requires
        n > 0,
    ensures
        r < n,
{
    rand::thread_rng().gen_range(0..n)
}

} // verus!
