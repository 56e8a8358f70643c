use vstd::prelude::*;

verus! {

/// Contract for full-playout local-search problems: a state is a candidate
/// solution, and every specification is stated over its model `Self::V`.
///
/// `start` runs a private, deterministic rollout to completion and returns
/// its score without mutating the candidate, so it is modelled by the spec
/// function `rollout_score`. `initialize` and `transition` draw fresh
/// random candidates, so nothing more than well-formedness can be promised
/// of their outcome.
pub trait HeuristicGameState: View + Sized {
    /// Well-formedness of a candidate model.
    spec fn wf(m: Self::V) -> bool;

    /// The score of the deterministic rollout that `start` performs.
    spec fn rollout_score(m: Self::V) -> u32;

    /// Replaces the candidate by a fresh random one.
    fn initialize(&mut self)
        requires
            Self::wf(old(self)@),
        ensures
            Self::wf(final(self)@),
    ;

    /// Runs the deterministic rollout to completion and returns its score.
    fn start(&self) -> (r: u32)
        requires
            Self::wf(self@),
        ensures
            r == Self::rollout_score(self@),
    ;

    /// Perturbs the candidate into a random neighbor.
    fn transition(&mut self)
        requires
            Self::wf(old(self)@),
        ensures
            Self::wf(final(self)@),
    ;

    /// An independent copy: perturbing the copy never mutates the original.
    fn duplicate(&self) -> (r: Self)
        ensures
            r@ == self@,
    ;
}

} // verus!
