use vstd::prelude::*;

use crate::game::one_player::OnePlayerGameState;
use crate::search::one_player::scored_pool::{spec_best_index, ScoredPool, Tagged};
use crate::search::one_player::{advanced, frontier_ok, ChooseAction};
use crate::TimeKeeper;

verus! {

/// Hard ceiling on sweeps over the per-depth frontiers, so that exhausted
/// frontiers cannot spin forever once the deadline wrapper stops firing;
/// unreachable in any practical run.
const MAX_SWEEPS: u64 = 1099511627776;

/// Every frontier of the pool stack is sound with respect to the initial
/// state: states are well-formed, an untagged entry is the initial state
/// itself, and a tag is always a legal root action.
pub open spec fn pools_ok<S: OnePlayerGameState>(
    pools: Seq<ScoredPool<S, S::Action>>,
    init: S::V,
) -> bool {
    forall|p: int| 0 <= p < pools.len() ==> frontier_ok::<S>(#[trigger] pools[p]@, init)
}

/// Chokudai search: `beam_depth + 1` independent frontiers, frontier 0
/// seeded with the initial state. Sweeps run until the deadline fires: for
/// each ply `t`, up to `beam_width` best states are popped from frontier
/// `t`; a terminal state is pushed back and ends that ply's sweep, any
/// other is expanded into frontier `t + 1`, propagating the inherited
/// first root action. On timeout the tag of the best entry of the deepest
/// non-empty frontier is returned, so a usable answer exists after any
/// elapsed time; `None` only when nothing was expanded at all.
///
/// Unlike beam search, whose answer only changes at layer boundaries and
/// therefore carries a complete-layer provenance clause, the anytime
/// answer here is read from whatever prefix of a sweep the deadline cut:
/// there is no coarser checkpoint family to quantify over than every
/// single pop. The unconditional guarantee is therefore the frontier
/// invariant itself — every tag ever stored is a legal root action — so
/// whatever the clock does, a returned action is legal in the initial
/// state.
pub fn chokudai_search_action<S: OnePlayerGameState>(
    initial_state: &S,
    beam_width: usize,
    beam_depth: usize,
    threshold: std::time::Duration,
) -> (r: Option<S::Action>)
    requires
        S::wf(initial_state@),
        !S::is_done(initial_state@),
        beam_depth < usize::MAX,
    ensures
        r matches Some(a) ==> S::legal(initial_state@).contains(a),
{
    let time_keeper = TimeKeeper::new(threshold);
    let ghost init = initial_state@;
    let mut pools: Vec<ScoredPool<S, S::Action>> = Vec::new();
    let mut p: usize = 0;
    while p < beam_depth + 1
        invariant
            beam_depth < usize::MAX,
            pools@.len() == p,
            p <= beam_depth + 1,
            pools_ok::<S>(pools@, init),
        decreases beam_depth + 1 - p,
    {
        pools.push(ScoredPool::new());
        p += 1;
    }
    let score0 = initial_state.evaluate_score();
    let mut seed = pools.remove(0);
    seed.push(Tagged { score: score0, state: initial_state.duplicate(), first: None });
    pools.insert(0, seed);

    let mut stop = false;
    let mut sweep: u64 = 0;
    while sweep < MAX_SWEEPS && !stop
        invariant
            S::wf(init),
            init == initial_state@,
            pools@.len() == beam_depth + 1,
            pools_ok::<S>(pools@, init),
        decreases MAX_SWEEPS - sweep,
    {
        sweep += 1;
        let mut t: usize = 0;
        while t < beam_depth && !stop
            invariant
                S::wf(init),
                init == initial_state@,
                t <= beam_depth,
                beam_depth < pools@.len(),
                pools@.len() == beam_depth + 1,
                pools_ok::<S>(pools@, init),
            decreases beam_depth - t,
        {
            let mut src = pools.remove(t);
            let mut dst = pools.remove(t);
            let mut w: usize = 0;
            while w < beam_width
                invariant
                    S::wf(init),
                    frontier_ok::<S>(src@, init),
                    frontier_ok::<S>(dst@, init),
                decreases beam_width - w,
            {
                if time_keeper.time_over() {
                    stop = true;
                    break ;
                }
                let ghost src_pre = src@;
                let popped = src.pop_best();
                match popped {
                    None => {
                        break ;
                    },
                    Some(tagged) => {
                        proof {
                            crate::search::one_player::scored_pool::lemma_best_index(src_pre);
                            assert(tagged == src_pre[spec_best_index(src_pre)]);
                        }
                        if tagged.state.done() {
                            src.push(tagged);
                            break ;
                        }
                        let legal = tagged.state.legal_actions();
                        let mut k: usize = 0;
                        while k < legal.len()
                            invariant
                                S::wf(init),
                                S::wf(tagged.state@),
                                !S::is_done(tagged.state@),
                                legal@ == S::legal(tagged.state@),
                                tagged.first is None ==> tagged.state@ == init,
                                tagged.first matches Some(f) ==> S::legal(init).contains(f),
                                k <= legal@.len(),
                                frontier_ok::<S>(dst@, init),
                            decreases legal@.len() - k,
                        {
                            proof {
                                assert(S::legal(tagged.state@).contains(legal@[k as int]));
                            }
                            let next = advanced(&tagged.state, legal[k]);
                            let next_score = next.evaluate_score();
                            let tag = match tagged.first {
                                Some(f) => Some(f),
                                None => Some(legal[k]),
                            };
                            dst.push(Tagged { score: next_score, state: next, first: tag });
                            k += 1;
                        }
                    },
                }
                w += 1;
            }
            pools.insert(t, dst);
            pools.insert(t, src);
            t += 1;
        }
    }
    let mut answer: Option<S::Action> = None;
    while pools.len() > 0
        invariant
            S::wf(init),
            init == initial_state@,
            pools_ok::<S>(pools@, init),
            answer is None,
        decreases pools@.len(),
    {
        let ghost pools_pre = pools@;
        let deepest = pools.pop();
        match deepest {
            None => {},
            Some(pool) => {
                proof {
                    assert(pool == pools_pre[pools_pre.len() - 1]);
                    assert(frontier_ok::<S>(pool@, init));
                }
                match pool.best_index() {
                    None => {},
                    Some(bi) => {
                        let top = pool.get(bi);
                        return top.first;
                    },
                }
            },
        }
    }
    answer
}

/// Chokudai search configuration: beam width, beam depth, and a wall-clock
/// deadline shared by all sweeps of one call.
pub struct Chokudai {
    beam_width: usize,
    beam_depth: usize,
    threshold: std::time::Duration,
}

impl Chokudai {
    /// The search only ever needs `beam_depth + 1` frontiers, which must
    /// be countable in a `usize`.
    #[verifier::type_invariant]
    spec fn type_inv(&self) -> bool {
        self.beam_depth < usize::MAX
    }

    /// The configured beam width.
    pub closed spec fn spec_beam_width(&self) -> usize {
        self.beam_width
    }

    /// The configured beam depth.
    pub closed spec fn spec_beam_depth(&self) -> usize {
        self.beam_depth
    }

    /// The configured deadline threshold.
    pub closed spec fn spec_threshold(&self) -> std::time::Duration {
        self.threshold
    }

    pub fn new(beam_width: usize, beam_depth: usize, threshold: std::time::Duration) -> (r: Self)
        requires
            beam_depth < usize::MAX,
        ensures
            r.spec_beam_width() == beam_width,
            r.spec_beam_depth() == beam_depth,
            r.spec_threshold() == threshold,
    {
        Chokudai { beam_width, beam_depth, threshold }
    }
}

impl<S: OnePlayerGameState> ChooseAction<S> for Chokudai {
    fn choose_action(&self, state: &S) -> Option<S::Action> {
        proof {
            use_type_invariant(self);
        }
        chokudai_search_action(state, self.beam_width, self.beam_depth, self.threshold)
    }
}

} // verus!
