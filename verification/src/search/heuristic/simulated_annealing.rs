use vstd::prelude::*;

use crate::fixed_point::ln_fp;
use crate::game::heuristic::HeuristicGameState;
use crate::random_below;
use crate::search::heuristic::ChooseState;

verus! {

/// Temperatures are given in thousandths of a score unit.
pub const TEMP_SCALE: u64 = 1000;

/// Largest accepted temperature, in thousandths: keeps every intermediate
/// product of the fixed-point Metropolis test inside `i128`.
pub const MAX_TEMPERATURE: u64 = 1000000000000;

/// Fixed-point Metropolis acceptance: a strictly better candidate is
/// always accepted; with a positive temperature `t` (in thousandths) a
/// worse or equal one is accepted when the drawn logarithm `ln_draw`
/// (`65536 * ln(u)` for a uniform `u` in `(0, 1)`) satisfies
/// `t * ln_draw < (candidate - current) * 65536 * 1000`, the fixed-point
/// form of `u < exp((candidate - current) / t)`; at temperature zero
/// nothing worse or equal is ever accepted.
pub open spec fn sa_accepts(current: u32, candidate: u32, temperature: int, ln_draw: int) -> bool {
    if candidate > current {
        true
    } else if temperature <= 0 {
        false
    } else {
        temperature * ln_draw < (candidate - current) * 65536000
    }
}

/// With the temperature pinned at zero, Metropolis acceptance degenerates
/// to hill climbing: exactly the strictly better candidates are accepted,
/// whatever the random source draws.
pub proof fn lemma_zero_temperature_hill_climb(current: u32, candidate: u32, ln_draw: int)
    ensures
        sa_accepts(current, candidate, 0, ln_draw) <==> candidate > current,
{
}

/// One acceptance decision. The random draw decides only the middle
/// ground: a strictly better candidate always passes, and a worse or
/// equal one never passes at a non-positive temperature.
fn sa_accept_step(current: u32, candidate: u32, temperature: i128) -> (r: bool)
    requires
        -2000000000000 <= temperature <= 2000000000000,
    ensures
        candidate > current ==> r,
        candidate <= current && temperature <= 0 ==> !r,
        exists|ln_draw: int| r == sa_accepts(current, candidate, temperature as int, ln_draw),
{
    if current < candidate {
        proof {
            assert(sa_accepts(current, candidate, temperature as int, 0));
        }
        return true;
    }
    if temperature <= 0 {
        proof {
            assert(!sa_accepts(current, candidate, temperature as int, 0));
        }
        return false;
    }
    let draw = random_below(65535) + 1;
    let ln_draw = ln_fp(draw as u64) as i128 - ln_fp(65536) as i128;
    let delta = candidate as i128 - current as i128;
    proof {
        assert(-4194304 < ln_draw < 4194304);
        assert(-10000000000000000000 <= (temperature as int) * (ln_draw as int)
            <= 10000000000000000000) by (nonlinear_arith)
            requires
                -2000000000000 <= (temperature as int) <= 2000000000000,
                -4194304 < (ln_draw as int) < 4194304,
        ;
        assert(-300000000000000000 <= (delta as int) * 65536000 <= 300000000000000000)
            by (nonlinear_arith)
            requires
                -4294967296 < (delta as int) <= 0,
        ;
    }
    let r = temperature * ln_draw < delta * 65536000;
    proof {
        assert(r == sa_accepts(current, candidate, temperature as int, ln_draw as int));
    }
    r
}

/// The linearly interpolated temperature at iteration `i` of `n`:
/// `start + (end - start) * i / (n - 1)`, in thousandths, so iteration 0
/// runs at the start temperature and the last iteration exactly at the
/// end temperature; a single-iteration run stays at the start
/// temperature. The sloped part is computed on a nonnegative numerator,
/// so division truncates the same way in both directions.
pub fn temperature_at(start: u64, end: u64, i: usize, n: usize) -> (t: i128)
    requires
        start <= MAX_TEMPERATURE,
        end <= MAX_TEMPERATURE,
        i < n,
    ensures
        n == 1 ==> t == start,
        n >= 2 && end >= start ==> t == start + (end - start) * (i as int) / (n - 1),
        n >= 2 && end < start ==> t == start - (start - end) * (i as int) / (n - 1),
        -2000000000000 <= t <= 2000000000000,
{
    if n == 1 {
        return start as i128;
    }
    let s = start as i128;
    let e = end as i128;
    let up = if e >= s {
        e - s
    } else {
        s - e
    };
    proof {
        assert({
            let q = (up as int) * (i as int) / (n - 1);
            0 <= q <= (up as int) && (up as int) * (i as int) <= 2000000000000000000000000000000000
        }) by (nonlinear_arith)
            requires
                0 <= i <= n - 1,
                1 <= n - 1,
                (i as int) < 100000000000000000000,
                0 <= (up as int) <= 1000000000000,
        ;
    }
    let slope = up * (i as i128) / ((n - 1) as i128);
    if e >= s {
        s + slope
    } else {
        s - slope
    }
}

/// Simulated annealing: like hill climbing, but a worse candidate is
/// accepted with probability `exp((candidate - current) / T)`, where `T`
/// follows the [`temperature_at`] schedule — linear from the start
/// temperature at iteration 0 to the end temperature at the last
/// iteration; the best candidate ever observed is tracked separately and
/// returned.
pub struct SimulatedAnnealing {
    transitions: usize,
    start_temperature: u64,
    end_temperature: u64,
}

impl SimulatedAnnealing {
    /// Temperatures stay small enough for the fixed-point Metropolis test.
    #[verifier::type_invariant]
    spec fn type_inv(&self) -> bool {
        self.start_temperature <= MAX_TEMPERATURE && self.end_temperature <= MAX_TEMPERATURE
    }

    /// The configured number of transitions.
    pub closed spec fn spec_transitions(&self) -> usize {
        self.transitions
    }

    /// The configured start temperature, in thousandths.
    pub closed spec fn spec_start_temperature(&self) -> u64 {
        self.start_temperature
    }

    /// The configured end temperature, in thousandths.
    pub closed spec fn spec_end_temperature(&self) -> u64 {
        self.end_temperature
    }

    /// Temperatures are given in thousandths of a score unit ([`TEMP_SCALE`]).
    pub fn new(transitions: usize, start_temperature: u64, end_temperature: u64) -> (r: Self)
        requires
            start_temperature <= MAX_TEMPERATURE,
            end_temperature <= MAX_TEMPERATURE,
        ensures
            r.spec_transitions() == transitions,
            r.spec_start_temperature() == start_temperature,
            r.spec_end_temperature() == end_temperature,
    {
        SimulatedAnnealing { transitions, start_temperature, end_temperature }
    }

    /// The annealing run: the returned candidate is the best ever
    /// observed, so it never scores worse than the given one.
    pub fn anneal<S: HeuristicGameState>(&self, initial_state: &S) -> (r: S)
        requires
            S::wf(initial_state@),
        ensures
            S::wf(r@),
            S::rollout_score(r@) >= S::rollout_score(initial_state@),
    {
        proof {
            use_type_invariant(self);
        }
        let mut state = initial_state.duplicate();
        let mut score = state.start();
        let mut best_state = state.duplicate();
        let mut best_score = score;
        let transitions = self.transitions;
        let mut i: usize = 0;
        while i < transitions
            invariant
                S::wf(state@),
                S::wf(best_state@),
                score == S::rollout_score(state@),
                best_score == S::rollout_score(best_state@),
                best_score >= S::rollout_score(initial_state@),
                best_score >= score,
                i <= transitions,
                self.start_temperature <= MAX_TEMPERATURE,
                self.end_temperature <= MAX_TEMPERATURE,
            decreases transitions - i,
        {
            let mut next_state = state.duplicate();
            next_state.transition();
            let next_score = next_state.start();
            let temperature = temperature_at(
                self.start_temperature,
                self.end_temperature,
                i,
                transitions,
            );
            if sa_accept_step(score, next_score, temperature) {
                score = next_score;
                state = next_state;
                if best_score < score {
                    best_score = score;
                    best_state = state.duplicate();
                }
            }
            i += 1;
        }
        best_state
    }
}

impl<S: HeuristicGameState> ChooseState<S> for SimulatedAnnealing {
    fn choose_state(&self, initial_state: &S) -> S {
        self.anneal(initial_state)
    }
}

} // verus!
