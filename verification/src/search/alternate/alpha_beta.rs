use vstd::prelude::*;

use crate::game::alternate::AlternateGameState;
use crate::search::alternate::{
    advanced, lemma_negamax_scan_frozen, lemma_negamax_scan_monotonic, lemma_negamax_scan_range,
    lemma_negamax_value_range, negamax_action, negamax_scan, negamax_value, ChooseAction,
};
use crate::TimeKeeper;

verus! {

/// Search outcome inside the minimax/alpha-beta family: either a bare leaf
/// score or a (score, action) pair. Negating it flips the score and keeps
/// the action, converting a child's perspective-relative score into the
/// parent's.
#[derive(Clone, Copy)]
pub enum SearchResult<A: Copy> {
    Score(i16),
    ScoreAndAction(i16, A),
}

impl<A: Copy> SearchResult<A> {
    /// The score carried by either variant.
    pub open spec fn spec_score(&self) -> i16 {
        match *self {
            SearchResult::Score(s) => s,
            SearchResult::ScoreAndAction(s, _) => s,
        }
    }

    /// The action of a `ScoreAndAction` result.
    pub open spec fn spec_action(&self) -> A {
        self->ScoreAndAction_1
    }

    pub fn neg(self) -> (r: Self)
        requires
            -32767 <= self.spec_score() as int,
        ensures
            r.spec_score() as int == -(self.spec_score() as int),
            self is Score <==> r is Score,
            self is ScoreAndAction ==> r.spec_action() == self.spec_action(),
    {
        match self {
            SearchResult::Score(s) => SearchResult::Score(-s),
            SearchResult::ScoreAndAction(s, a) => SearchResult::ScoreAndAction(-s, a),
        }
    }

    pub fn score(&self) -> (r: i16)
        ensures
            r == self.spec_score(),
    {
        match *self {
            SearchResult::Score(s) => s,
            SearchResult::ScoreAndAction(s, _) => s,
        }
    }
}

/// A state at which the recursion stops on its own: terminal, out of
/// depth, or (vacuously, under the game contract) without a legal action.
pub open spec fn at_horizon<S: AlternateGameState>(m: S::V, d: nat) -> bool {
    S::is_done(m) || d == 0 || S::legal(m).len() == 0
}

/// What a completed alpha-beta call with window `(a, b)` guarantees about
/// its result: the score is a sound bound on the negamax value on the side
/// of the window it did not cross, it is exact at the horizon, and under
/// the full window `(-32767, 32767)` the search is exact and selects the
/// same action as the unpruned negamax scan.
pub open spec fn ab_post<S: AlternateGameState>(
    m: S::V,
    a: int,
    b: int,
    d: nat,
    res: SearchResult<S::Action>,
) -> bool {
    let v = negamax_value::<S>(m, d);
    &&& -32767 <= res.spec_score() as int <= 32767
    &&& (res.spec_score() as int) < b ==> v <= res.spec_score() as int
    &&& (res.spec_score() as int) > a ==> v >= res.spec_score() as int
    &&& at_horizon::<S>(m, d) ==> res is Score && res.spec_score() as int == v
    &&& !at_horizon::<S>(m, d) ==> res is ScoreAndAction
    &&& (!at_horizon::<S>(m, d) && a == -32767 && b == 32767) ==> {
        &&& res.spec_score() as int == v
        &&& res.spec_action() == negamax_action::<S>(m, d)
    }
}

/// Alpha-beta recursion. The deadline is checked at entry and after every
/// child evaluation; on expiry the whole call chain returns `None`,
/// signaling abandonment, so a `Some` result carries the guarantees of
/// [`ab_post`] unconditionally.
pub(crate) fn search<S: AlternateGameState>(
    state: &S,
    alpha: SearchResult<S::Action>,
    beta: SearchResult<S::Action>,
    d: u32,
    time_keeper: &TimeKeeper,
) -> (r: Option<SearchResult<S::Action>>)
    requires
        S::wf(state@),
        -32767 <= alpha.spec_score() as int,
        alpha.spec_score() < beta.spec_score(),
    ensures
        r matches Some(res) ==> ab_post::<S>(
            state@,
            alpha.spec_score() as int,
            beta.spec_score() as int,
            d as nat,
            res,
        ),
    decreases d,
{
    let ghost a0 = alpha.spec_score() as int;
    let ghost b0 = beta.spec_score() as int;
    if time_keeper.time_over() {
        return None;
    }
    if state.done() || d == 0 {
        proof {
            S::lemma_score_range(state@);
        }
        return Some(SearchResult::Score(state.score()));
    }
    let legal = state.legal_actions();
    if legal.len() == 0 {
        proof {
            S::lemma_score_range(state@);
        }
        return Some(SearchResult::Score(state.score()));
    }
    let ghost n = legal@.len() as nat;

    proof {
        assert(S::legal(state@).contains(legal@[0]));
    }
    let child = advanced(state, legal[0]);
    let res0 = match search(&child, beta.neg(), alpha.neg(), d - 1, time_keeper) {
        Some(r) => r,
        None => {
            return None;
        },
    };
    proof {
        lemma_negamax_value_range::<S>(child@, (d - 1) as nat);
    }
    let v0 = res0.neg().score();
    if time_keeper.time_over() {
        return None;
    }
    let mut cur = SearchResult::ScoreAndAction(v0, legal[0]);
    proof {
        let t0 = -negamax_value::<S>(S::step(state@, legal@[0]), (d - 1) as nat);
        assert(negamax_scan::<S>(state@, d as nat, 1).0 == t0);
    }
    if v0 >= beta.score() {
        proof {
            lemma_negamax_scan_monotonic::<S>(state@, d as nat, 1, n);
            if a0 == -32767 && b0 == 32767 {
                lemma_negamax_scan_frozen::<S>(state@, d as nat, 1, n);
            }
        }
        return Some(cur);
    }
    let mut i: usize = 1;
    while i < legal.len()
        invariant
            S::wf(state@),
            !S::is_done(state@),
            d >= 1,
            legal@ == S::legal(state@),
            n == legal@.len() as nat,
            1 <= i <= legal@.len(),
            a0 == alpha.spec_score() as int,
            b0 == beta.spec_score() as int,
            -32767 <= a0 < b0 <= 32767,
            cur is ScoreAndAction,
            -32767 <= cur.spec_score() as int <= 32767,
            (cur.spec_score() as int) < b0,
            negamax_scan::<S>(state@, d as nat, i as nat).0 <= cur.spec_score() as int,
            cur.spec_score() as int <= a0 || cur.spec_score() as int <= negamax_scan::<S>(
                state@,
                d as nat,
                i as nat,
            ).0,
            (a0 == -32767 && b0 == 32767) ==> {
                &&& cur.spec_score() as int == negamax_scan::<S>(state@, d as nat, i as nat).0
                &&& cur.spec_action() == legal@[negamax_scan::<S>(state@, d as nat, i as nat).1]
            },
        decreases legal@.len() - i,
    {
        proof {
            assert(S::legal(state@).contains(legal@[i as int]));
        }
        let child = advanced(state, legal[i]);
        let res = match search(&child, beta.neg(), cur.neg(), d - 1, time_keeper) {
            Some(r) => r,
            None => {
                return None;
            },
        };
        proof {
            lemma_negamax_value_range::<S>(child@, (d - 1) as nat);
        }
        let v = res.neg().score();
        if time_keeper.time_over() {
            return None;
        }
        proof {
            let t = -negamax_value::<S>(S::step(state@, legal@[i as int]), (d - 1) as nat);
            assert(negamax_scan::<S>(state@, d as nat, (i + 1) as nat).0 == if t
                > negamax_scan::<S>(state@, d as nat, i as nat).0 {
                t
            } else {
                negamax_scan::<S>(state@, d as nat, i as nat).0
            });
        }
        if cur.score() < v {
            cur = SearchResult::ScoreAndAction(v, legal[i]);
        }
        i += 1;
        if cur.score() >= beta.score() {
            proof {
                lemma_negamax_scan_monotonic::<S>(state@, d as nat, i as nat, n);
                if a0 == -32767 && b0 == 32767 {
                    lemma_negamax_scan_frozen::<S>(state@, d as nat, i as nat, n);
                }
            }
            return Some(cur);
        }
    }
    Some(cur)
}

/// The entry point of the family: a full-window alpha-beta search of depth
/// `depth`. `None` reports abandonment (the deadline fired) or a
/// configuration admitting no choice (depth zero); otherwise the selected
/// action is exactly the one full negamax of the same depth selects —
/// pruning changes the node count, never the chosen action.
pub fn alpha_beta_action<S: AlternateGameState>(
    state: &S,
    depth: u32,
    time_keeper: &TimeKeeper,
) -> (r: Option<S::Action>)
    requires
        S::wf(state@),
        !S::is_done(state@),
    ensures
        r is Some ==> depth >= 1 && r->0 == negamax_action::<S>(state@, depth as nat),
        r is Some ==> S::legal(state@).contains(r->0),
{
    let alpha = SearchResult::Score(i16::MIN + 1);
    let beta = SearchResult::Score(i16::MAX);
    let res = match search(state, alpha, beta, depth, time_keeper) {
        Some(r) => r,
        None => {
            return None;
        },
    };
    proof {
        S::lemma_nonterminal_can_move(state@);
        if depth >= 1 {
            lemma_negamax_scan_range::<S>(state@, depth as nat, S::legal(state@).len() as nat);
        }
    }
    match res {
        SearchResult::Score(_) => None,
        SearchResult::ScoreAndAction(_, action) => Some(action),
    }
}

/// Alpha-beta pruning to a fixed depth under a wall-clock deadline,
/// started fresh at every call.
pub struct AlphaBeta {
    depth: u32,
    threshold: std::time::Duration,
}

impl AlphaBeta {
    /// The configured search depth.
    pub closed spec fn spec_depth(&self) -> u32 {
        self.depth
    }

    /// The configured deadline threshold.
    pub closed spec fn spec_threshold(&self) -> std::time::Duration {
        self.threshold
    }

    pub fn new(depth: u32, threshold: std::time::Duration) -> (r: Self)
        ensures
            r.spec_depth() == depth,
            r.spec_threshold() == threshold,
    {
        AlphaBeta { depth, threshold }
    }
}

impl<S: AlternateGameState> ChooseAction<S> for AlphaBeta {
    fn choose_action(&self, state: &S) -> Option<S::Action> {
        let time_keeper = TimeKeeper::new(self.threshold);
        alpha_beta_action(state, self.depth, &time_keeper)
    }
}

} // verus!
