use vstd::prelude::*;

verus! {

/// Contract for single-agent path-optimization games: one player advances a
/// state step by step and tries to maximize the evaluated score. As in
/// [`crate::game::alternate::AlternateGameState`], the model `Self::V`
/// carries every specification, `legal_actions` is empty only at a terminal
/// state, and `advance` mutates the state in place.
pub trait OnePlayerGameState: View + Sized {
    type Action: Copy;

    /// Well-formedness of a state model.
    spec fn wf(m: Self::V) -> bool;

    /// Whether the game has ended.
    spec fn is_done(m: Self::V) -> bool;

    /// The legal actions from this state.
    spec fn legal(m: Self::V) -> Seq<Self::Action>;

    /// The scalar score of the state, the ranking key of every path
    /// strategy.
    spec fn score_of(m: Self::V) -> u32;

    /// The state reached by taking one legal action.
    spec fn step(m: Self::V, a: Self::Action) -> Self::V;

    proof fn lemma_step_wf(m: Self::V, a: Self::Action)
        requires
            Self::wf(m),
            !Self::is_done(m),
            Self::legal(m).contains(a),
        ensures
            Self::wf(Self::step(m, a)),
    ;

    proof fn lemma_nonterminal_can_move(m: Self::V)
        requires
            Self::wf(m),
            !Self::is_done(m),
        ensures
            Self::legal(m).len() > 0,
    ;

    fn legal_actions(&self) -> (r: Vec<Self::Action>)
        requires
            Self::wf(self@),
        ensures
            r@ == Self::legal(self@),
    ;

    fn advance(&mut self, action: Self::Action)
        requires
            Self::wf(old(self)@),
            !Self::is_done(old(self)@),
            Self::legal(old(self)@).contains(action),
        ensures
            final(self)@ == Self::step(old(self)@, action),
    ;

    fn done(&self) -> (r: bool)
        requires
            Self::wf(self@),
        ensures
            r == Self::is_done(self@),
    ;

    fn evaluate_score(&self) -> (r: u32)
        requires
            Self::wf(self@),
        ensures
            r == Self::score_of(self@),
    ;

    /// An independent copy: advancing the copy never mutates the original.
    fn duplicate(&self) -> (r: Self)
        ensures
            r@ == self@,
    ;
}

} // verus!
