use vstd::prelude::*;

pub mod alpha_beta;
pub mod iterative_deepening_alpha_beta;
pub mod mcts;
pub mod mini_max;
pub mod primitive_montecarlo;
pub mod random;
pub mod thunder;

use crate::game::alternate::AlternateGameState;

verus! {

/// A strategy for alternating-turn games. `choose` returns `None` only
/// when the strategy could not produce an answer (a deadline too short, or
/// a configuration such as search depth zero that admits no choice);
/// callers treat that as a reported misconfiguration, never as an action.
pub trait ChooseAction<S: AlternateGameState> {
    fn choose_action(&self, state: &S) -> (r: Option<S::Action>)
        requires
            S::wf(state@),
            !S::is_done(state@),
        ensures
            r is Some ==> S::legal(state@).contains(r->0),
    ;
}

/// The depth-bounded negamax value of a state: its own score at depth zero,
/// at a terminal state, and (vacuously, under the game contract) with no
/// legal action; otherwise the maximum over all legal actions of the
/// negated value of the successor, one level shallower.
pub open spec fn negamax_value<S: AlternateGameState>(m: S::V, d: nat) -> int
    decreases d, S::legal(m).len() + 1,
{
    if S::is_done(m) || d == 0 || S::legal(m).len() == 0 {
        S::score_of(m) as int
    } else {
        negamax_scan::<S>(m, d, S::legal(m).len() as nat).0
    }
}

/// Best (value, action index) among the first `i` legal actions of `m`,
/// `1 <= i <= S::legal(m).len()`, at depth `d >= 1`. Ties keep the earliest
/// index: a later action replaces the running best only with a strictly
/// larger value.
pub open spec fn negamax_scan<S: AlternateGameState>(m: S::V, d: nat, i: nat) -> (int, int)
    decreases d, i,
{
    if d == 0 {
        (0, 0)
    } else if i <= 1 {
        (-negamax_value::<S>(S::step(m, S::legal(m)[0]), (d - 1) as nat), 0)
    } else {
        let prev = negamax_scan::<S>(m, d, (i - 1) as nat);
        let v = -negamax_value::<S>(S::step(m, S::legal(m)[i - 1]), (d - 1) as nat);
        if v > prev.0 {
            (v, i - 1)
        } else {
            prev
        }
    }
}

/// The action a full negamax search of depth `d >= 1` selects from a
/// non-terminal state: the first legal action attaining the maximal negated
/// successor value.
pub open spec fn negamax_action<S: AlternateGameState>(m: S::V, d: nat) -> S::Action {
    S::legal(m)[negamax_scan::<S>(m, d, S::legal(m).len() as nat).1]
}

/// Every negamax value lies in `[-32767, 32767]`: it is either a state
/// score, which the game contract keeps out of `i16::MIN`, or a negation of
/// such a value.
pub proof fn lemma_negamax_value_range<S: AlternateGameState>(m: S::V, d: nat)
    requires
        S::wf(m),
    ensures
        -32767 <= negamax_value::<S>(m, d) <= 32767,
    decreases d, S::legal(m).len() + 1,
{
    if S::is_done(m) || d == 0 || S::legal(m).len() == 0 {
        S::lemma_score_range(m);
    } else {
        lemma_negamax_scan_range::<S>(m, d, S::legal(m).len() as nat);
    }
}

/// Range and well-formedness facts about a prefix scan: the best value is
/// in `[-32767, 32767]` and the best index lies in the prefix.
pub proof fn lemma_negamax_scan_range<S: AlternateGameState>(m: S::V, d: nat, i: nat)
    requires
        S::wf(m),
        !S::is_done(m),
        d >= 1,
        1 <= i <= S::legal(m).len(),
    ensures
        -32767 <= negamax_scan::<S>(m, d, i).0 <= 32767,
        0 <= negamax_scan::<S>(m, d, i).1 < i,
    decreases d, i,
{
    let a = S::legal(m)[i - 1];
    assert(S::legal(m).contains(a));
    S::lemma_step_wf(m, a);
    lemma_negamax_value_range::<S>(S::step(m, a), (d - 1) as nat);
    if i > 1 {
        lemma_negamax_scan_range::<S>(m, d, (i - 1) as nat);
    }
}

/// The best value over a prefix never shrinks as the prefix grows.
pub proof fn lemma_negamax_scan_monotonic<S: AlternateGameState>(m: S::V, d: nat, i: nat, j: nat)
    requires
        d >= 1,
        1 <= i <= j <= S::legal(m).len(),
    ensures
        negamax_scan::<S>(m, d, i).0 <= negamax_scan::<S>(m, d, j).0,
    decreases j,
{
    if i < j {
        lemma_negamax_scan_monotonic::<S>(m, d, i, (j - 1) as nat);
    }
}

/// Once a prefix attains the greatest representable score, longer prefixes
/// keep both that value and that first attaining index: no later action can
/// strictly exceed it.
pub proof fn lemma_negamax_scan_frozen<S: AlternateGameState>(m: S::V, d: nat, i: nat, j: nat)
    requires
        S::wf(m),
        !S::is_done(m),
        d >= 1,
        1 <= i <= j <= S::legal(m).len(),
        negamax_scan::<S>(m, d, i).0 == 32767,
    ensures
        negamax_scan::<S>(m, d, j) == negamax_scan::<S>(m, d, i),
    decreases j,
{
    if i < j {
        lemma_negamax_scan_frozen::<S>(m, d, i, (j - 1) as nat);
        let a = S::legal(m)[j - 1];
        assert(S::legal(m).contains(a));
        S::lemma_step_wf(m, a);
        lemma_negamax_value_range::<S>(S::step(m, a), (d - 1) as nat);
    }
}

/// An independent successor: duplicates `state` and advances the copy, so
/// the original is untouched — the state independence every tree and beam
/// strategy relies on.
pub fn advanced<S: AlternateGameState>(state: &S, action: S::Action) -> (r: S)
    requires
        S::wf(state@),
        !S::is_done(state@),
        S::legal(state@).contains(action),
    ensures
        r@ == S::step(state@, action),
        S::wf(r@),
{
    proof {
        S::lemma_step_wf(state@, action);
    }
    let mut copy = state.duplicate();
    copy.advance(action);
    copy
}

} // verus!
