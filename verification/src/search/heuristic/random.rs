use vstd::prelude::*;

use crate::game::heuristic::HeuristicGameState;
use crate::search::heuristic::ChooseState;

verus! {

/// Random restart: returns one freshly initialized candidate per call;
/// repeated sampling is the caller's responsibility.
pub struct Random {}

impl<S: HeuristicGameState> ChooseState<S> for Random {
    fn choose_state(&self, initial_state: &S) -> S {
        let mut state = initial_state.duplicate();
        state.initialize();
        state
    }
}

} // verus!
