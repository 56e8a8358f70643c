use vstd::prelude::*;

use crate::game::one_player::OnePlayerGameState;
use crate::search::one_player::{advanced, ChooseAction};

verus! {

/// Best (score, action index) among the first `i` one-step successors,
/// `1 <= i <= S::legal(m).len()`. A later action replaces the running best
/// whenever its score is at least as large, so ties favor the action seen
/// last.
pub open spec fn greedy_scan<S: OnePlayerGameState>(m: S::V, i: nat) -> (int, int)
    decreases i,
{
    if i <= 1 {
        (S::score_of(S::step(m, S::legal(m)[0])) as int, 0)
    } else {
        let prev = greedy_scan::<S>(m, (i - 1) as nat);
        let v = S::score_of(S::step(m, S::legal(m)[i - 1])) as int;
        if prev.0 <= v {
            (v, i - 1)
        } else {
            prev
        }
    }
}

/// The action greedy selection picks: the one whose one-step successor has
/// the highest evaluated score, ties favoring the later action.
pub open spec fn greedy_choice<S: OnePlayerGameState>(m: S::V) -> S::Action {
    S::legal(m)[greedy_scan::<S>(m, S::legal(m).len() as nat).1]
}

pub proof fn lemma_greedy_scan_range<S: OnePlayerGameState>(m: S::V, i: nat)
    requires
        1 <= i <= S::legal(m).len(),
    ensures
        0 <= greedy_scan::<S>(m, i).1 < i,
    decreases i,
{
    if i > 1 {
        lemma_greedy_scan_range::<S>(m, (i - 1) as nat);
    }
}

/// Among all legal actions, the one whose one-step result has the highest
/// `evaluate_score`, ties favoring the later-seen action.
pub fn greedy_action<S: OnePlayerGameState>(state: &S) -> (r: Option<S::Action>)
    requires
        S::wf(state@),
        !S::is_done(state@),
    ensures
        r == Some(greedy_choice::<S>(state@)),
        S::legal(state@).contains(r->0),
{
    let legal = state.legal_actions();
    proof {
        S::lemma_nonterminal_can_move(state@);
        assert(S::legal(state@).contains(legal@[0]));
    }
    let first = advanced(state, legal[0]);
    let mut best_score: u32 = first.evaluate_score();
    let mut best_index: usize = 0;
    let mut i: usize = 1;
    while i < legal.len()
        invariant
            S::wf(state@),
            !S::is_done(state@),
            legal@ == S::legal(state@),
            1 <= i <= legal@.len(),
            best_score as int == greedy_scan::<S>(state@, i as nat).0,
            best_index as int == greedy_scan::<S>(state@, i as nat).1,
        decreases legal@.len() - i,
    {
        proof {
            assert(S::legal(state@).contains(legal@[i as int]));
        }
        let next = advanced(state, legal[i]);
        let score = next.evaluate_score();
        if best_score <= score {
            best_score = score;
            best_index = i;
        }
        i += 1;
    }
    proof {
        lemma_greedy_scan_range::<S>(state@, legal@.len() as nat);
        assert(S::legal(state@).contains(legal@[best_index as int]));
    }
    Some(legal[best_index])
}

/// One-step lookahead: always takes the locally best action.
pub struct Greedy {}

impl<S: OnePlayerGameState> ChooseAction<S> for Greedy {
    fn choose_action(&self, state: &S) -> Option<S::Action> {
        greedy_action(state)
    }
}

} // verus!
