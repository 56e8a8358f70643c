use vstd::prelude::*;

pub mod hill_climb;
pub mod random;
pub mod simulated_annealing;

use crate::game::heuristic::HeuristicGameState;

verus! {

/// A local-search strategy: given an initial candidate, returns the best
/// candidate it found. Every strategy preserves well-formedness of the
/// candidate it hands back.
pub trait ChooseState<S: HeuristicGameState> {
    fn choose_state(&self, initial_state: &S) -> (r: S)
        requires
            S::wf(initial_state@),
        ensures
            S::wf(r@),
    ;
}

} // verus!
