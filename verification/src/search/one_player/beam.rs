use vstd::prelude::*;

use crate::game::one_player::OnePlayerGameState;
use crate::search::one_player::scored_pool::{
    best_index_upto, lemma_best_index, lemma_best_index_upto, spec_best_index, ScoredPool, Tagged,
};
use crate::search::one_player::{advanced, frontier_ok, ChooseAction};
use crate::TimeKeeper;

verus! {

/// Hard ceiling on processed layers, so that a frontier that empties out
/// (or a game that never ends) cannot spin forever once the deadline
/// wrapper stops firing; unreachable in any practical run.
const MAX_LAYERS: u64 = 1099511627776;

/// A frontier entry seen abstractly: its ranking score, the model of its
/// state, and the inherited first root action.
pub open spec fn entry_views<S: OnePlayerGameState>(s: Seq<Tagged<S, S::Action>>) -> Seq<
    (u32, S::V, Option<S::Action>),
> {
    Seq::new(s.len(), |i: int| (s[i].score, s[i].state@, s[i].first))
}

/// Index of the first best-scoring entry of the prefix `f[..i]` of an
/// abstract frontier; mirrors the pool's pop order.
pub open spec fn view_best_upto<S: OnePlayerGameState>(
    f: Seq<(u32, S::V, Option<S::Action>)>,
    i: nat,
) -> int
    decreases i,
{
    if i <= 1 {
        0
    } else {
        let p = view_best_upto::<S>(f, (i - 1) as nat);
        if f[i - 1].0 > f[p].0 {
            i - 1
        } else {
            p
        }
    }
}

/// The pool pops exactly the entry the abstract frontier ranks best.
proof fn lemma_view_best<S: OnePlayerGameState>(s: Seq<Tagged<S, S::Action>>, i: nat)
    requires
        1 <= i <= s.len(),
    ensures
        view_best_upto::<S>(entry_views(s), i) == best_index_upto(s, i),
    decreases i,
{
    if i > 1 {
        lemma_view_best::<S>(s, (i - 1) as nat);
        lemma_best_index_upto(s, (i - 1) as nat);
    }
}

/// Removing an entry commutes with taking the abstract view.
proof fn lemma_entry_views_remove<S: OnePlayerGameState>(s: Seq<Tagged<S, S::Action>>, b: int)
    requires
        0 <= b < s.len(),
    ensures
        entry_views::<S>(s.remove(b)) == entry_views::<S>(s).remove(b),
{
    assert(entry_views::<S>(s.remove(b)) =~= entry_views::<S>(s).remove(b));
}

/// The successor entries one expanded state contributes, in action
/// order: each legal action yields the advanced state with its evaluated
/// score, tagged with the inherited first root action, or with the action
/// itself when expanding the untagged root.
pub open spec fn expansion_views<S: OnePlayerGameState>(m: S::V, tag: Option<S::Action>) -> Seq<
    (u32, S::V, Option<S::Action>),
> {
    Seq::new(
        S::legal(m).len(),
        |k: int|
            {
                let a = S::legal(m)[k];
                let m2 = S::step(m, a);
                (
                    S::score_of(m2),
                    m2,
                    if tag is Some {
                        tag
                    } else {
                        Some(a)
                    },
                )
            },
    )
}

/// One layer of beam search over an abstract frontier: up to `w` times,
/// the best remaining entry is popped; a terminal one is discarded, any
/// other contributes its successors to the next frontier `acc`.
pub open spec fn run_layer<S: OnePlayerGameState>(
    f: Seq<(u32, S::V, Option<S::Action>)>,
    w: nat,
    acc: Seq<(u32, S::V, Option<S::Action>)>,
) -> Seq<(u32, S::V, Option<S::Action>)>
    decreases w,
{
    if w == 0 || f.len() == 0 {
        acc
    } else {
        let b = view_best_upto::<S>(f, f.len() as nat);
        let e = f[b];
        let acc2 = if S::is_done(e.1) {
            acc
        } else {
            acc + expansion_views::<S>(e.1, e.2)
        };
        run_layer::<S>(f.remove(b), (w - 1) as nat, acc2)
    }
}

/// The frontier and the recorded best answer after `k` complete layers
/// of width `w`: each layer replaces the frontier by [`run_layer`] of it,
/// and a non-empty new frontier records its best entry's tag as the
/// current answer (an empty one keeps the previous answer).
pub open spec fn beam_after<S: OnePlayerGameState>(
    f0: Seq<(u32, S::V, Option<S::Action>)>,
    w: nat,
    k: nat,
) -> (Seq<(u32, S::V, Option<S::Action>)>, Option<S::Action>)
    decreases k,
{
    if k == 0 {
        (f0, None)
    } else {
        let prev = beam_after::<S>(f0, w, (k - 1) as nat);
        let f2 = run_layer::<S>(prev.0, w, Seq::empty());
        let best2 = if f2.len() > 0 {
            f2[view_best_upto::<S>(f2, f2.len() as nat)].2
        } else {
            prev.1
        };
        (f2, best2)
    }
}

/// The abstract frontier a beam search starts from: the initial state,
/// its own score, and no tag.
pub open spec fn initial_frontier<S: OnePlayerGameState>(m: S::V) -> Seq<
    (u32, S::V, Option<S::Action>),
> {
    seq![(S::score_of(m), m, None)]
}

/// Beam search: per layer, pops up to `beam_width` best states, expands
/// each into a fresh frontier propagating the first root action taken,
/// and after a full layer records the top entry's tag as the current
/// best answer; stops when the top state is terminal. If the deadline
/// fires the best action recorded so far is returned; `None` means no
/// layer was completed in time. An empty frontier (fewer reachable
/// states than the width) is tolerated: the last recorded answer stands.
/// Whatever the clock does, any answer is exactly the one recorded after
/// some number of complete layers of [`beam_after`] — and therefore a
/// legal action of the initial state.
pub fn beam_search_action<S: OnePlayerGameState>(
    initial_state: &S,
    beam_width: usize,
    threshold: std::time::Duration,
) -> (r: Option<S::Action>)
    requires
        S::wf(initial_state@),
        !S::is_done(initial_state@),
    ensures
        r matches Some(a) ==> S::legal(initial_state@).contains(a),
        r matches Some(a) ==> exists|k: nat|
            Some(a) == #[trigger] beam_after::<S>(
                initial_frontier::<S>(initial_state@),
                beam_width as nat,
                k,
            ).1,
{
    let time_keeper = TimeKeeper::new(threshold);
    let ghost init = initial_state@;
    let ghost f0 = initial_frontier::<S>(init);
    let ghost width = beam_width as nat;
    let mut best_action: Option<S::Action> = None;
    let mut pool: ScoredPool<S, S::Action> = ScoredPool::new();
    let score0 = initial_state.evaluate_score();
    pool.push(Tagged { score: score0, state: initial_state.duplicate(), first: None });
    proof {
        assert(entry_views::<S>(pool@) =~= f0);
    }
    let mut layer: u64 = 0;
    while layer < MAX_LAYERS
        invariant
            S::wf(init),
            init == initial_state@,
            f0 == initial_frontier::<S>(init),
            width == beam_width as nat,
            frontier_ok::<S>(pool@, init),
            entry_views::<S>(pool@) == beam_after::<S>(f0, width, layer as nat).0,
            best_action == beam_after::<S>(f0, width, layer as nat).1,
            best_action matches Some(a) ==> S::legal(init).contains(a),
        decreases MAX_LAYERS - layer,
    {
        layer += 1;
        let ghost f_layer = entry_views::<S>(pool@);
        let mut new_pool: ScoredPool<S, S::Action> = ScoredPool::new();
        proof {
            assert(entry_views::<S>(new_pool@) =~= Seq::empty());
        }
        let mut w: usize = 0;
        while w < beam_width
            invariant
                S::wf(init),
                init == initial_state@,
                f0 == initial_frontier::<S>(init),
                width == beam_width as nat,
                layer >= 1,
                w <= beam_width,
                frontier_ok::<S>(pool@, init),
                frontier_ok::<S>(new_pool@, init),
                forall|j: int| 0 <= j < new_pool@.len() ==> (#[trigger] new_pool@[j].first) is Some,
                best_action == beam_after::<S>(f0, width, (layer - 1) as nat).1,
                best_action matches Some(a) ==> S::legal(init).contains(a),
                f_layer == beam_after::<S>(f0, width, (layer - 1) as nat).0,
                run_layer::<S>(entry_views::<S>(pool@), (beam_width - w) as nat, entry_views::<S>(new_pool@))
                    == run_layer::<S>(f_layer, width, Seq::empty()),
            ensures
                w == beam_width || pool@.len() == 0,
            decreases beam_width - w,
        {
            if time_keeper.time_over() {
                return best_action;
            }
            let ghost pool_pre = pool@;
            let popped = pool.pop_best();
            match popped {
                None => {
                    break ;
                },
                Some(t) => {
                    proof {
                        lemma_best_index(pool_pre);
                        assert(t == pool_pre[spec_best_index(pool_pre)]);
                        lemma_view_best::<S>(pool_pre, pool_pre.len() as nat);
                        lemma_entry_views_remove::<S>(pool_pre, spec_best_index(pool_pre));
                    }
                    let ghost acc_pre = entry_views::<S>(new_pool@);
                    let ghost popped_view = entry_views::<S>(pool_pre)[spec_best_index(pool_pre)];
                    if !t.state.done() {
                        let legal = t.state.legal_actions();
                        let mut k: usize = 0;
                        while k < legal.len()
                            invariant
                                S::wf(init),
                                S::wf(t.state@),
                                !S::is_done(t.state@),
                                legal@ == S::legal(t.state@),
                                t.first is None ==> t.state@ == init,
                                t.first matches Some(f) ==> S::legal(init).contains(f),
                                k <= legal@.len(),
                                frontier_ok::<S>(new_pool@, init),
                                forall|j: int|
                                    0 <= j < new_pool@.len() ==> (
                                    #[trigger] new_pool@[j].first) is Some,
                                popped_view.1 == t.state@,
                                popped_view.2 == t.first,
                                entry_views::<S>(new_pool@) == acc_pre + expansion_views::<S>(
                                    t.state@,
                                    t.first,
                                ).subrange(0, k as int),
                            decreases legal@.len() - k,
                        {
                            proof {
                                assert(S::legal(t.state@).contains(legal@[k as int]));
                            }
                            let next = advanced(&t.state, legal[k]);
                            let next_score = next.evaluate_score();
                            let tag = match t.first {
                                Some(f) => Some(f),
                                None => Some(legal[k]),
                            };
                            let ghost gstate = next@;
                            let ghost before = new_pool@;
                            let ghost exp = expansion_views::<S>(t.state@, t.first);
                            proof {
                                assert((next_score, gstate, tag) == exp[k as int]);
                            }
                            new_pool.push(Tagged { score: next_score, state: next, first: tag });
                            proof {
                                let lhs = entry_views::<S>(new_pool@);
                                let rhs = acc_pre + exp.subrange(0, k + 1);
                                assert(new_pool@.len() == before.len() + 1);
                                assert(exp.len() == legal@.len());
                                assert(k + 1 <= exp.len());
                                assert(entry_views::<S>(before).len() == before.len());
                                assert(before.len() == acc_pre.len() + k);
                                assert(lhs.len() == rhs.len());
                                assert forall|idx: int| 0 <= idx < lhs.len() implies lhs[idx]
                                    == rhs[idx] by {
                                    if idx < before.len() {
                                        assert(new_pool@[idx] == before[idx]);
                                        assert(entry_views::<S>(before)[idx] == (acc_pre
                                            + exp.subrange(0, k as int))[idx]);
                                    } else {
                                        assert(new_pool@[idx].score == next_score
                                            && new_pool@[idx].state@ == gstate && new_pool@[idx].first
                                            == tag);
                                    }
                                }
                                assert(lhs =~= rhs);
                            }
                            k += 1;
                        }
                        proof {
                            assert(expansion_views::<S>(t.state@, t.first).subrange(
                                0,
                                legal@.len() as int,
                            ) =~= expansion_views::<S>(t.state@, t.first));
                            assert(entry_views::<S>(new_pool@) == acc_pre + expansion_views::<S>(
                                popped_view.1,
                                popped_view.2,
                            ));
                        }
                    }
                },
            }
            w += 1;
        }
        pool = new_pool;
        proof {
            assert(entry_views::<S>(pool@) == run_layer::<S>(f_layer, width, Seq::empty()));
            assert(entry_views::<S>(pool@) == beam_after::<S>(f0, width, layer as nat).0);
        }
        match pool.best_index() {
            None => {
                proof {
                    assert(best_action == beam_after::<S>(f0, width, layer as nat).1);
                }
            },
            Some(bi) => {
                proof {
                    lemma_view_best::<S>(pool@, pool@.len() as nat);
                }
                let top = pool.get(bi);
                best_action = top.first;
                proof {
                    assert(best_action == beam_after::<S>(f0, width, layer as nat).1);
                }
                if top.state.done() {
                    return best_action;
                }
            },
        }
    }
    best_action
}

/// Breadth-bounded best-first search retaining only the top `beam_width`
/// candidates per layer, under a wall-clock deadline.
pub struct Beam {
    beam_width: usize,
    threshold: std::time::Duration,
}

impl Beam {
    /// The configured beam width.
    pub closed spec fn spec_beam_width(&self) -> usize {
        self.beam_width
    }

    /// The configured deadline threshold.
    pub closed spec fn spec_threshold(&self) -> std::time::Duration {
        self.threshold
    }

    pub fn new(beam_width: usize, threshold: std::time::Duration) -> (r: Self)
        ensures
            r.spec_beam_width() == beam_width,
            r.spec_threshold() == threshold,
    {
        Beam { beam_width, threshold }
    }
}

impl<S: OnePlayerGameState> ChooseAction<S> for Beam {
    fn choose_action(&self, state: &S) -> Option<S::Action> {
        beam_search_action(state, self.beam_width, self.threshold)
    }
}

} // verus!
