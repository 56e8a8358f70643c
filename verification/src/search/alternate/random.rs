use vstd::prelude::*;

use crate::game::alternate::AlternateGameState;
use crate::random_below;
use crate::search::alternate::ChooseAction;

verus! {

/// One uniformly random legal action. Whatever the random source draws,
/// the result is a legal action of `state`, and a state with exactly one
/// legal action yields that action deterministically.
pub fn random_action<S: AlternateGameState>(state: &S) -> (r: Option<S::Action>)
    requires
        S::wf(state@),
        !S::is_done(state@),
    ensures
        r is Some,
        S::legal(state@).contains(r->0),
        S::legal(state@).len() == 1 ==> r == Some(S::legal(state@)[0]),
{
    let legal = state.legal_actions();
    proof {
        S::lemma_nonterminal_can_move(state@);
    }
    let i = random_below(legal.len());
    proof {
        assert(S::legal(state@).contains(legal@[i as int]));
    }
    Some(legal[i])
}

/// Uniformly selects one legal action.
pub struct Random {}

impl<S: AlternateGameState> ChooseAction<S> for Random {
    fn choose_action(&self, state: &S) -> Option<S::Action> {
        random_action(state)
    }
}

} // verus!
