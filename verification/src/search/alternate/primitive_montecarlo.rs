use vstd::prelude::*;

use crate::game::alternate::{AlternateGameState, WinningStatus};
use crate::search::alternate::random::random_action;
use crate::search::alternate::{advanced, ChooseAction};
use crate::{TimeKeeper, VALUE_SCALE};

verus! {

/// Hard ceiling on playout rounds, keeping every per-action accumulator
/// within its integer type; unreachable in any practical run.
pub const MAX_PLAYOUTS: u64 = 1099511627776;

/// The fixed-point value of a finished game for the player about to move:
/// a win is worth [`VALUE_SCALE`], a draw half of it, a loss nothing.
pub open spec fn status_value(status: WinningStatus) -> u64 {
    match status {
        WinningStatus::Win => VALUE_SCALE,
        WinningStatus::Draw => VALUE_SCALE / 2,
        WinningStatus::Lose => 0,
    }
}

/// Computes [`status_value`] exactly.
pub fn status_value_exec(status: WinningStatus) -> (r: u64)
    ensures
        r == status_value(status),
        r <= VALUE_SCALE,
{
    match status {
        WinningStatus::Win => VALUE_SCALE,
        WinningStatus::Draw => VALUE_SCALE / 2,
        WinningStatus::Lose => 0,
    }
}

/// One random playout to the end of the game, advancing `state` in place
/// by uniformly random legal actions. The result is the terminal value
/// seen from the perspective of the player about to move in the state the
/// playout started from; the perspective flips every ply. The playout
/// stops exactly at a terminal state, and an already-terminal state is
/// returned untouched with its own outcome value.
pub fn playout<S: AlternateGameState>(state: &mut S) -> (r: u64)
    requires
        S::wf(old(state)@),
    ensures
        r == 0 || r == VALUE_SCALE / 2 || r == VALUE_SCALE,
        S::wf(final(state)@),
        S::status_of(final(state)@) is Some,
        S::status_of(old(state)@) matches Some(st) ==> *final(state) == *old(state) && r
            == status_value(st),
{
    let mut flipped = false;
    loop
        invariant
            S::wf(state@),
            S::status_of(old(state)@) is Some ==> *state == *old(state) && !flipped,
        decreases S::steps_to_end(state@),
    {
        let status = state.winning_status();
        match status {
            Some(s) => {
                let value = status_value_exec(s);
                return if flipped {
                    VALUE_SCALE - value
                } else {
                    value
                };
            },
            None => {
                proof {
                    S::lemma_status_iff_done(state@);
                }
                let action = random_action(state).unwrap();
                proof {
                    S::lemma_step_wf(state@, action);
                }
                state.advance(action);
                flipped = !flipped;
            },
        }
    }
}

/// Whether the mean accumulated value of the first slot is strictly below
/// that of the second, compared exactly by cross multiplication; a slot
/// that was never played ranks above every played one, and two such slots
/// rank equal.
pub open spec fn mean_lt(v1: u128, c1: u64, v2: u128, c2: u64) -> bool {
    if c1 == 0 {
        false
    } else if c2 == 0 {
        true
    } else {
        v1 * (c2 as u128) < v2 * (c1 as u128)
    }
}

/// Strictly-below on means is transitive, with the never-played slots on
/// top.
pub proof fn lemma_mean_lt_trans(
    v1: u128,
    c1: u64,
    v2: u128,
    c2: u64,
    v3: u128,
    c3: u64,
)
    requires
        mean_lt(v1, c1, v2, c2),
        mean_lt(v2, c2, v3, c3),
    ensures
        mean_lt(v1, c1, v3, c3),
{
    if c3 != 0 {
        assert((v1 as int) * (c3 as int) < (v3 as int) * (c1 as int)) by (nonlinear_arith)
            requires
                c1 >= 1,
                c2 >= 1,
                c3 >= 1,
                v1 >= 0,
                v2 >= 0,
                v3 >= 0,
                (v1 as int) * (c2 as int) < (v2 as int) * (c1 as int),
                (v2 as int) * (c3 as int) < (v3 as int) * (c2 as int),
        ;
    }
}

/// The index of the best mean among the first `i` slots: a later slot
/// replaces the running best only with a strictly larger mean, so ties
/// keep the first maximum.
pub open spec fn pick_scan(values: Seq<u128>, counts: Seq<u64>, i: nat) -> int
    decreases i,
{
    if i <= 1 {
        0
    } else {
        let p = pick_scan(values, counts, (i - 1) as nat);
        if mean_lt(values[p], counts[p], values[i - 1], counts[i - 1]) {
            i - 1
        } else {
            p
        }
    }
}


/// The index with the highest mean value, as [`pick_scan`] describes:
/// ties keep the first maximum, and no slot ranks strictly above the
/// returned one.
pub fn montecarlo_pick(values: &Vec<u128>, counts: &Vec<u64>) -> (r: usize)
    requires
        values@.len() == counts@.len(),
        values@.len() > 0,
        forall|j: int|
            0 <= j < counts@.len() ==> (#[trigger] counts@[j]) <= MAX_PLAYOUTS && values@[j] <= (
            counts@[j] as u128) * (VALUE_SCALE as u128),
    ensures
        r < values@.len(),
        r as int == pick_scan(values@, counts@, values@.len() as nat),
        forall|j: int|
            0 <= j < counts@.len() ==> !mean_lt(
                values@[r as int],
                counts@[r as int],
                #[trigger] values@[j],
                counts@[j],
            ),
{
    let mut best: usize = 0;
    let mut i: usize = 1;
    while i < values.len()
        invariant
            values@.len() == counts@.len(),
            1 <= i <= values@.len(),
            0 <= best < i,
            best as int == pick_scan(values@, counts@, i as nat),
            forall|j: int|
                0 <= j < i ==> !mean_lt(
                    values@[best as int],
                    counts@[best as int],
                    #[trigger] values@[j],
                    counts@[j],
                ),
            forall|j: int|
                0 <= j < counts@.len() ==> (#[trigger] counts@[j]) <= MAX_PLAYOUTS && values@[j]
                    <= (counts@[j] as u128) * (VALUE_SCALE as u128),
        decreases values@.len() - i,
    {
        proof {
            assert((values@[i as int]) * (counts@[best as int] as u128) <= (
            0x100000000000000u128) * (0x10000000000u128) && (values@[best as int]) * (
            counts@[i as int] as u128) <= (0x100000000000000u128) * (0x10000000000u128))
                by (nonlinear_arith)
                requires
                    values@[i as int] <= (counts@[i as int] as u128) * (VALUE_SCALE as u128),
                    values@[best as int] <= (counts@[best as int] as u128) * (VALUE_SCALE as u128),
                    counts@[i as int] <= MAX_PLAYOUTS,
                    counts@[best as int] <= MAX_PLAYOUTS,
                    VALUE_SCALE == 65536,
                    MAX_PLAYOUTS == 1099511627776,
            ;
        }
        let candidate_better: bool = if counts[best] == 0 {
            false
        } else if counts[i] == 0 {
            true
        } else {
            values[best] * (counts[i] as u128) < values[i] * (counts[best] as u128)
        };
        proof {
            let ghost ob = best as int;
            if candidate_better {
                assert forall|j: int| 0 <= j < i + 1 implies !mean_lt(
                    values@[i as int],
                    counts@[i as int],
                    #[trigger] values@[j],
                    counts@[j],
                ) by {
                    if j < i && mean_lt(values@[i as int], counts@[i as int], values@[j], counts@[j]) {
                        lemma_mean_lt_trans(
                            values@[ob],
                            counts@[ob],
                            values@[i as int],
                            counts@[i as int],
                            values@[j],
                            counts@[j],
                        );
                    }
                }
            }
        }
        if candidate_better {
            best = i;
        }
        i += 1;
    }
    best
}

/// Books one finished playout: the action at `idx` gains the value seen
/// from the deciding player's perspective, and its play count grows by
/// one; the accumulated value stays within one playout's worth of the
/// count.
fn record_round(values: &mut Vec<u128>, counts: &mut Vec<u64>, idx: usize, value: u64)
    requires
        old(values)@.len() == old(counts)@.len(),
        idx < old(values)@.len(),
        value <= VALUE_SCALE,
        old(counts)@[idx as int] < MAX_PLAYOUTS,
        old(values)@[idx as int] <= (old(counts)@[idx as int] as u128) * (VALUE_SCALE as u128),
    ensures
        final(values)@ == old(values)@.update(
            idx as int,
            (old(values)@[idx as int] + (VALUE_SCALE - value) as u128) as u128,
        ),
        final(counts)@ == old(counts)@.update(idx as int, (old(counts)@[idx as int] + 1) as u64),
        final(values)@[idx as int] <= (final(counts)@[idx as int] as u128) * (VALUE_SCALE as u128),
{
    proof {
        let c0 = old(counts)@[idx as int];
        assert((c0 as u128) * (VALUE_SCALE as u128) <= 0x100000000000000u128 && (c0 as u128) * (
        VALUE_SCALE as u128) + (VALUE_SCALE as u128) == ((c0 + 1) as u128) * (VALUE_SCALE as u128))
            by (nonlinear_arith)
            requires
                c0 < MAX_PLAYOUTS,
                MAX_PLAYOUTS == 1099511627776,
                VALUE_SCALE == 65536,
        ;
    }
    let gained = (VALUE_SCALE - value) as u128;
    values[idx] = values[idx] + gained;
    counts[idx] = counts[idx] + 1;
}

/// Round-robins `playout_number` random playouts across the legal
/// actions, accumulating for each action the values seen from the current
/// player's perspective, and selects the action with the highest mean.
pub fn primitive_montecarlo_action<S: AlternateGameState>(state: &S, playout_number: u64) -> (r:
    Option<S::Action>)
    requires
        S::wf(state@),
        !S::is_done(state@),
        playout_number <= MAX_PLAYOUTS,
    ensures
        r is Some,
        S::legal(state@).contains(r->0),
{
    let legal = state.legal_actions();
    proof {
        S::lemma_nonterminal_can_move(state@);
    }
    let n = legal.len();
    let mut values: Vec<u128> = Vec::new();
    let mut counts: Vec<u64> = Vec::new();
    let mut j: usize = 0;
    while j < n
        invariant
            values@.len() == j,
            counts@.len() == j,
            j <= n,
            forall|q: int| 0 <= q < j ==> (#[trigger] values@[q]) == 0 && counts@[q] == 0,
        decreases n - j,
    {
        values.push(0);
        counts.push(0);
        j += 1;
    }
    proof {
        assert forall|q: int|
            0 <= q < n implies (#[trigger] counts@[q]) <= 0u64 && values@[q] <= (
        counts@[q] as u128) * (VALUE_SCALE as u128) by {
            assert(values@[q] == 0 && counts@[q] == 0);
            assert((counts@[q] as u128) * (VALUE_SCALE as u128) >= 0) by (nonlinear_arith);
        }
    }
    let mut i: u64 = 0;
    let mut idx: usize = 0;
    while i < playout_number
        invariant
            S::wf(state@),
            !S::is_done(state@),
            legal@ == S::legal(state@),
            n == legal@.len(),
            n > 0,
            idx < n,
            values@.len() == n,
            counts@.len() == n,
            i <= playout_number <= MAX_PLAYOUTS,
            forall|q: int|
                0 <= q < n ==> (#[trigger] counts@[q]) <= i && values@[q] <= (counts@[q] as u128)
                    * (VALUE_SCALE as u128),
        decreases playout_number - i,
    {
        proof {
            assert(S::legal(state@).contains(legal@[idx as int]));
        }
        let mut next_state = advanced(state, legal[idx]);
        let value = playout(&mut next_state);
        record_round(&mut values, &mut counts, idx, value);
        i += 1;
        idx += 1;
        if idx == n {
            idx = 0;
        }
    }
    let pick = montecarlo_pick(&values, &counts);
    proof {
        assert(S::legal(state@).contains(legal@[pick as int]));
    }
    Some(legal[pick])
}

/// Primitive Monte Carlo under a wall-clock deadline: playouts round-robin
/// across the legal actions until the deadline fires.
pub struct PrimitiveMontecarlo {
    threshold: std::time::Duration,
}

impl PrimitiveMontecarlo {
    /// The configured deadline threshold.
    pub closed spec fn spec_threshold(&self) -> std::time::Duration {
        self.threshold
    }

    pub fn new(threshold: std::time::Duration) -> (r: Self)
        ensures
            r.spec_threshold() == threshold,
    {
        PrimitiveMontecarlo { threshold }
    }
}

/// Round-robins random playouts across the legal actions until the
/// deadline fires, then selects the action with the highest mean (the
/// [`montecarlo_pick`] rule, ties keeping the first maximum). The
/// deadline only bounds the number of playouts: an answer always exists,
/// and it is always a legal action of the given state.
pub fn primitive_montecarlo_deadline_action<S: AlternateGameState>(
    state: &S,
    threshold: std::time::Duration,
) -> (r: Option<S::Action>)
    requires
        S::wf(state@),
        !S::is_done(state@),
    ensures
        r is Some,
        S::legal(state@).contains(r->0),
{
    let time_keeper = TimeKeeper::new(threshold);
    let legal = state.legal_actions();
        proof {
            S::lemma_nonterminal_can_move(state@);
        }
        let n = legal.len();
        let mut values: Vec<u128> = Vec::new();
        let mut counts: Vec<u64> = Vec::new();
        let mut j: usize = 0;
        while j < n
            invariant
                values@.len() == j,
                counts@.len() == j,
                j <= n,
                forall|q: int| 0 <= q < j ==> (#[trigger] values@[q]) == 0 && counts@[q] == 0,
            decreases n - j,
        {
            values.push(0);
            counts.push(0);
            j += 1;
        }
        proof {
            assert forall|q: int|
                0 <= q < n implies (#[trigger] counts@[q]) <= 0u64 && values@[q] <= (
            counts@[q] as u128) * (VALUE_SCALE as u128) by {
                assert(values@[q] == 0 && counts@[q] == 0);
                assert((counts@[q] as u128) * (VALUE_SCALE as u128) >= 0) by (nonlinear_arith);
            }
        }
        let mut i: u64 = 0;
        let mut idx: usize = 0;
        while i < MAX_PLAYOUTS
            invariant
                S::wf(state@),
                !S::is_done(state@),
                legal@ == S::legal(state@),
                n == legal@.len(),
                n > 0,
                idx < n,
                values@.len() == n,
                counts@.len() == n,
                i <= MAX_PLAYOUTS,
                forall|q: int|
                    0 <= q < n ==> (#[trigger] counts@[q]) <= i && values@[q] <= (
                    counts@[q] as u128) * (VALUE_SCALE as u128),
            decreases MAX_PLAYOUTS - i,
        {
            if time_keeper.time_over() {
                break ;
            }
            proof {
                assert(S::legal(state@).contains(legal@[idx as int]));
            }
            let mut next_state = advanced(state, legal[idx]);
            let value = playout(&mut next_state);
            record_round(&mut values, &mut counts, idx, value);
            i += 1;
            idx += 1;
            if idx == n {
                idx = 0;
            }
        }
        let pick = montecarlo_pick(&values, &counts);
        proof {
            assert(S::legal(state@).contains(legal@[pick as int]));
        }
        Some(legal[pick])
}

impl<S: AlternateGameState> ChooseAction<S> for PrimitiveMontecarlo {
    fn choose_action(&self, state: &S) -> Option<S::Action> {
        primitive_montecarlo_deadline_action(state, self.threshold)
    }
}

} // verus!
