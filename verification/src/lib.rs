//! Generic search strategies for decision problems, stated through three
//! minimal state contracts — two-player alternating-turn games, single-agent
//! path optimization, and full-playout local search — and verified against
//! them: negamax and alpha-beta with proven agreement of the chosen action,
//! iterative deepening over a cooperative wall-clock deadline, Monte Carlo
//! tree search with UCB1 in exact fixed point, beam and Chokudai search over
//! a verified frontier pool, and hill climbing with Metropolis-style
//! simulated annealing. Four concrete games implement the contracts.

use vstd::prelude::*;

pub mod fixed_point;
pub mod game;
pub mod games;
pub mod search;

verus! {

/// Scaled fixed-point unit used wherever the search layer accumulates
/// playout outcomes: a win contributes `VALUE_SCALE`, a draw half of it,
/// a loss nothing.
pub const VALUE_SCALE: u64 = 65536;

/// The `std::time::Instant` type, opaque to the verifier; a `TimeKeeper`
/// stores the instant at which it was constructed.
#[verifier::external_type_specification]
#[verifier::external_body]
pub struct ExInstant(std::time::Instant);

/// Relies on `std::time::Instant::now`: nothing can be promised about the
/// clock, so the contract is empty.
#[verifier::external_body]
fn instant_now() -> std::time::Instant {
    std::time::Instant::now()
}

/// Relies on `std::time::Instant::elapsed`: the result is a `Duration`
/// measured by the clock, about which nothing can be promised.
#[verifier::external_body]
fn instant_elapsed(start: &std::time::Instant) -> std::time::Duration {
    start.elapsed()
}

/// Relies on `std::time::Duration::as_micros`: converts a duration to a
/// number of microseconds, about which the callers here need no promise.
#[verifier::external_body]
fn duration_as_micros(d: &std::time::Duration) -> u128 {
    d.as_micros()
}

/// Relies on `rand::Rng::gen_range` on `rand::thread_rng`, which panics on
/// an empty range and otherwise returns a number drawn from `0..n`.
#[verifier::external_body]
pub(crate) fn random_below(n: usize) -> (r: usize)
    requires
        n > 0,
    ensures
        r < n,
{
    rand::Rng::gen_range(&mut rand::thread_rng(), 0..n)
}

/// Wall-clock cutoff shared by every time-bounded strategy: it captures the
/// instant of its construction and reports whether the configured threshold
/// has elapsed. The verifier learns nothing from `time_over`; every
/// deadline-aware strategy therefore states what holds of its answer
/// whichever way the clock falls.
pub struct TimeKeeper {
    start: std::time::Instant,
    threshold: std::time::Duration,
}

impl TimeKeeper {
    /// Captures the current instant together with the cutoff threshold.
    pub fn new(threshold: std::time::Duration) -> Self {
        TimeKeeper { start: instant_now(), threshold }
    }

    /// Whether the time elapsed since construction reaches the threshold;
    /// cheap, side-effect free, callable repeatedly.
    pub fn time_over(&self) -> bool {
        let elapsed = instant_elapsed(&self.start);
        duration_as_micros(&elapsed) >= duration_as_micros(&self.threshold)
    }
}

} // verus!
