use vstd::prelude::*;

pub mod beam;
pub mod chokudai;
pub mod greedy;
pub mod random;
pub mod scored_pool;

use crate::game::one_player::OnePlayerGameState;
use crate::search::one_player::scored_pool::Tagged;

verus! {

/// A strategy for single-agent path games. `choose_action` returns `None`
/// only when the strategy could not produce an answer (a deadline that
/// fired before any layer was processed); callers treat that as a reported
/// misconfiguration, never as an action.
pub trait ChooseAction<S: OnePlayerGameState> {
    fn choose_action(&self, state: &S) -> (r: Option<S::Action>)
        requires
            S::wf(state@),
            !S::is_done(state@),
        ensures
            r is Some ==> S::legal(state@).contains(r->0),
    ;
}

/// Every frontier entry is sound with respect to the initial state `init`
/// of the search: its state is well-formed, an untagged entry is the
/// initial state itself, and a tag is always a legal root action.
pub open spec fn frontier_ok<S: OnePlayerGameState>(
    entries: Seq<Tagged<S, S::Action>>,
    init: S::V,
) -> bool {
    forall|j: int|
        0 <= j < entries.len() ==> {
            &&& S::wf((#[trigger] entries[j]).state@)
            &&& (entries[j].first is None ==> entries[j].state@ == init)
            &&& (entries[j].first is Some ==> S::legal(init).contains(entries[j].first->0))
        }
}

/// An independent successor: duplicates `state` and advances the copy, so
/// the original is untouched.
pub fn advanced<S: OnePlayerGameState>(state: &S, action: S::Action) -> (r: S)
    requires
        S::wf(state@),
        !S::is_done(state@),
        S::legal(state@).contains(action),
    ensures
        r@ == S::step(state@, action),
        S::wf(r@),
{
    proof {
        S::lemma_step_wf(state@, action);
    }
    let mut copy = state.duplicate();
    copy.advance(action);
    copy
}

} // verus!
