use vstd::prelude::*;

use crate::game::alternate::AlternateGameState;
use crate::search::alternate::alpha_beta::alpha_beta_action;
use crate::search::alternate::{negamax_action, ChooseAction};
use crate::TimeKeeper;

verus! {

/// Runs alpha-beta for depth 1, 2, 3, … against one shared deadline,
/// keeping the action from the last depth that completed; that fallback is
/// returned the instant a depth search is abandoned. `None` means even the
/// depth-1 search was abandoned: a fatal configuration error (deadline too
/// short), reported rather than silently defaulted. A `Some` action is
/// exactly the unpruned negamax choice at the deepest completed depth.
pub fn iterative_deepening_action<S: AlternateGameState>(
    state: &S,
    threshold: std::time::Duration,
) -> (r: Option<S::Action>)
    requires
        S::wf(state@),
        !S::is_done(state@),
    ensures
        r matches Some(a) ==> exists|dd: nat|
            1 <= dd && a == negamax_action::<S>(state@, dd),
        r matches Some(a) ==> S::legal(state@).contains(a),
{
    let time_keeper = TimeKeeper::new(threshold);
    let mut best: Option<S::Action> = None;
    let mut depth: u32 = 1;
    loop
        invariant
            S::wf(state@),
            !S::is_done(state@),
            depth >= 1,
            best matches Some(a) ==> exists|dd: nat|
                1 <= dd && a == negamax_action::<S>(state@, dd),
            best matches Some(a) ==> S::legal(state@).contains(a),
        decreases u32::MAX - depth,
    {
        match alpha_beta_action(state, depth, &time_keeper) {
            Some(action) => {
                proof {
                    assert(1 <= depth as nat && action == negamax_action::<S>(
                        state@,
                        depth as nat,
                    ));
                }
                best = Some(action);
            },
            None => {
                return best;
            },
        }
        if depth == u32::MAX {
            return best;
        }
        depth += 1;
    }
}

/// Iterative-deepening alpha-beta under one shared wall-clock deadline.
pub struct IterativeDeepeningAlphaBeta {
    threshold: std::time::Duration,
}

impl IterativeDeepeningAlphaBeta {
    /// The configured deadline threshold.
    pub closed spec fn spec_threshold(&self) -> std::time::Duration {
        self.threshold
    }

    pub fn new(threshold: std::time::Duration) -> (r: Self)
        ensures
            r.spec_threshold() == threshold,
    {
        IterativeDeepeningAlphaBeta { threshold }
    }
}

impl<S: AlternateGameState> ChooseAction<S> for IterativeDeepeningAlphaBeta {
    fn choose_action(&self, state: &S) -> Option<S::Action> {
        iterative_deepening_action(state, self.threshold)
    }
}

} // verus!
