use vstd::prelude::*;

use crate::game::alternate::AlternateGameState;
use crate::search::alternate::{
    advanced, lemma_negamax_scan_range, lemma_negamax_value_range, negamax_action, negamax_scan,
    negamax_value, ChooseAction,
};

verus! {

/// Full negamax search to a fixed depth: no pruning, no deadline; runs to
/// completion.
pub struct MiniMax {
    depth: u32,
}

impl MiniMax {
    /// The configured search depth.
    pub closed spec fn spec_depth(&self) -> u32 {
        self.depth
    }

    pub fn new(depth: u32) -> (r: Self)
        ensures
            r.spec_depth() == depth,
    {
        MiniMax { depth }
    }
}

/// The negamax value of `state` at depth `d`, computed by exhaustive
/// recursion.
fn negamax_search<S: AlternateGameState>(state: &S, d: u32) -> (r: i16)
    requires
        S::wf(state@),
    ensures
        r as int == negamax_value::<S>(state@, d as nat),
    decreases d,
{
    if state.done() || d == 0 {
        return state.score();
    }
    let legal = state.legal_actions();
    if legal.len() == 0 {
        return state.score();
    }
    proof {
        assert(S::legal(state@).contains(legal@[0]));
    }
    let child = advanced(state, legal[0]);
    let v = negamax_search(&child, d - 1);
    proof {
        lemma_negamax_value_range::<S>(child@, (d - 1) as nat);
    }
    let mut best: i16 = -v;
    let mut i: usize = 1;
    while i < legal.len()
        invariant
            S::wf(state@),
            !S::is_done(state@),
            d >= 1,
            legal@ == S::legal(state@),
            1 <= i <= legal@.len(),
            best as int == negamax_scan::<S>(state@, d as nat, i as nat).0,
        decreases legal@.len() - i,
    {
        proof {
            assert(S::legal(state@).contains(legal@[i as int]));
        }
        let child = advanced(state, legal[i]);
        let v = negamax_search(&child, d - 1);
        proof {
            lemma_negamax_value_range::<S>(child@, (d - 1) as nat);
        }
        let v = -v;
        if best < v {
            best = v;
        }
        i += 1;
    }
    best
}

/// The action a full negamax search of depth `depth` selects: among all
/// legal actions, the first one attaining the maximal negated successor
/// value. Depth zero admits no choice and is reported as `None`.
pub fn mini_max_action<S: AlternateGameState>(state: &S, depth: u32) -> (r: Option<S::Action>)
    requires
        S::wf(state@),
        !S::is_done(state@),
    ensures
        depth == 0 ==> r is None,
        depth >= 1 ==> r == Some(negamax_action::<S>(state@, depth as nat)),
        r is Some ==> S::legal(state@).contains(r->0),
{
    if depth == 0 {
        return None;
    }
    let legal = state.legal_actions();
    proof {
        S::lemma_nonterminal_can_move(state@);
        assert(S::legal(state@).contains(legal@[0]));
    }
    let child = advanced(state, legal[0]);
    let v = negamax_search(&child, depth - 1);
    proof {
        lemma_negamax_value_range::<S>(child@, (depth - 1) as nat);
    }
    let mut best: i16 = -v;
    let mut best_index: usize = 0;
    let mut i: usize = 1;
    while i < legal.len()
        invariant
            S::wf(state@),
            !S::is_done(state@),
            depth >= 1,
            legal@ == S::legal(state@),
            1 <= i <= legal@.len(),
            best as int == negamax_scan::<S>(state@, depth as nat, i as nat).0,
            best_index as int == negamax_scan::<S>(state@, depth as nat, i as nat).1,
        decreases legal@.len() - i,
    {
        proof {
            assert(S::legal(state@).contains(legal@[i as int]));
        }
        let child = advanced(state, legal[i]);
        let v = negamax_search(&child, depth - 1);
        proof {
            lemma_negamax_value_range::<S>(child@, (depth - 1) as nat);
        }
        let v = -v;
        if best < v {
            best = v;
            best_index = i;
        }
        i += 1;
    }
    proof {
        lemma_negamax_scan_range::<S>(state@, depth as nat, legal@.len() as nat);
        assert(S::legal(state@).contains(legal@[best_index as int]));
    }
    Some(legal[best_index])
}

impl<S: AlternateGameState> ChooseAction<S> for MiniMax {
    fn choose_action(&self, state: &S) -> Option<S::Action> {
        mini_max_action(state, self.depth)
    }
}

} // verus!
