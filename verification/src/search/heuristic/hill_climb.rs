use vstd::prelude::*;

use crate::game::heuristic::HeuristicGameState;
use crate::search::heuristic::ChooseState;

verus! {

/// Hill climbing: starting from the given candidate, tries `transitions`
/// random neighbors and moves only on a strictly better rollout score —
/// no acceptance of equal or worse, so no escape from local optima.
pub struct HillClimb {
    transitions: usize,
}

impl HillClimb {
    /// The configured number of transitions.
    pub closed spec fn spec_transitions(&self) -> usize {
        self.transitions
    }

    pub fn new(transitions: usize) -> (r: Self)
        ensures
            r.spec_transitions() == transitions,
    {
        HillClimb { transitions }
    }

    /// The climb itself: the returned candidate never scores worse than
    /// the given one, and its score is exactly the running best.
    pub fn climb<S: HeuristicGameState>(&self, initial_state: &S) -> (r: S)
        requires
            S::wf(initial_state@),
        ensures
            S::wf(r@),
            S::rollout_score(r@) >= S::rollout_score(initial_state@),
    {
        let mut state = initial_state.duplicate();
        let mut best_score = state.start();
        let transitions = self.transitions;
        let mut i: usize = 0;
        while i < transitions
            invariant
                S::wf(state@),
                best_score == S::rollout_score(state@),
                best_score >= S::rollout_score(initial_state@),
                i <= transitions,
            decreases transitions - i,
        {
            let mut next_state = state.duplicate();
            next_state.transition();
            let next_score = next_state.start();
            if best_score < next_score {
                best_score = next_score;
                state = next_state;
            }
            i += 1;
        }
        state
    }
}

impl<S: HeuristicGameState> ChooseState<S> for HillClimb {
    fn choose_state(&self, initial_state: &S) -> S {
        self.climb(initial_state)
    }
}

} // verus!
