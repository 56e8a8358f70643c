use vstd::prelude::*;

use crate::VALUE_SCALE;

verus! {

/// Outcome of a finished alternating-turn game, expressed from the
/// perspective of the player about to move in that exact state (the
/// negamax convention kept throughout this crate).
#[derive(Clone, Copy, Debug, PartialEq, Eq, Structural)]
pub enum WinningStatus {
    Win,
    Draw,
    Lose,
}

/// Contract for two-player alternating-turn games.
///
/// A state is modelled by its view `Self::V`; every specification below is
/// stated over that model. `advance` mutates the state in place and flips
/// whose perspective subsequent operations describe, so every state is
/// always expressed from the acting player's viewpoint. `legal_actions` is
/// empty only at a terminal state, and `winning_status` is `Some` exactly
/// at terminal states.
pub trait AlternateGameState: View + Sized {
    type Action: Copy;

    /// Well-formedness of a state model; constructors establish it and
    /// `step` preserves it.
    spec fn wf(m: Self::V) -> bool;

    /// Whether the game has ended.
    spec fn is_done(m: Self::V) -> bool;

    /// The legal actions of the player about to move.
    spec fn legal(m: Self::V) -> Seq<Self::Action>;

    /// Heuristic score from the current mover's perspective, used when a
    /// search is cut off above a terminal state. Never `i16::MIN`, so that
    /// negation cannot overflow.
    spec fn score_of(m: Self::V) -> i16;

    /// Outcome from the current mover's perspective, defined exactly at
    /// terminal states.
    spec fn status_of(m: Self::V) -> Option<WinningStatus>;

    /// Bounded self-estimate of the current mover's standing, as a fixed
    /// point fraction of [`VALUE_SCALE`] (so in `0 ..= VALUE_SCALE`).
    spec fn rate_of(m: Self::V) -> u64;

    /// The state reached by taking one legal action.
    spec fn step(m: Self::V, a: Self::Action) -> Self::V;

    /// An upper bound on the number of moves the game can still last:
    /// every legal move strictly decreases it, so random playouts
    /// terminate.
    spec fn steps_to_end(m: Self::V) -> nat;

    proof fn lemma_step_wf(m: Self::V, a: Self::Action)
        requires
            Self::wf(m),
            !Self::is_done(m),
            Self::legal(m).contains(a),
        ensures
            Self::wf(Self::step(m, a)),
            Self::steps_to_end(Self::step(m, a)) < Self::steps_to_end(m),
    ;

    proof fn lemma_nonterminal_can_move(m: Self::V)
        requires
            Self::wf(m),
            !Self::is_done(m),
        ensures
            Self::legal(m).len() > 0,
    ;

    proof fn lemma_score_range(m: Self::V)
        requires
            Self::wf(m),
        ensures
            -32767 <= Self::score_of(m) as int,
    ;

    proof fn lemma_status_iff_done(m: Self::V)
        requires
            Self::wf(m),
        ensures
            Self::is_done(m) <==> Self::status_of(m) is Some,
    ;

    proof fn lemma_rate_bounded(m: Self::V)
        requires
            Self::wf(m),
        ensures
            Self::rate_of(m) <= VALUE_SCALE,
    ;

    fn legal_actions(&self) -> (r: Vec<Self::Action>)
        requires
            Self::wf(self@),
        ensures
            r@ == Self::legal(self@),
    ;

    fn advance(&mut self, action: Self::Action)
        requires
            Self::wf(old(self)@),
            !Self::is_done(old(self)@),
            Self::legal(old(self)@).contains(action),
        ensures
            final(self)@ == Self::step(old(self)@, action),
    ;

    fn done(&self) -> (r: bool)
        requires
            Self::wf(self@),
        ensures
            r == Self::is_done(self@),
    ;

    fn score(&self) -> (r: i16)
        requires
            Self::wf(self@),
        ensures
            r == Self::score_of(self@),
    ;

    fn winning_status(&self) -> (r: Option<WinningStatus>)
        requires
            Self::wf(self@),
        ensures
            r == Self::status_of(self@),
    ;

    fn score_rate(&self) -> (r: u64)
        requires
            Self::wf(self@),
        ensures
            r == Self::rate_of(self@),
    ;

    /// An independent copy: advancing the copy never mutates the original.
    fn duplicate(&self) -> (r: Self)
        ensures
            r@ == self@,
    ;
}

} // verus!
