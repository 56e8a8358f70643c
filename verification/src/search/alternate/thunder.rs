use vstd::prelude::*;

use crate::game::alternate::AlternateGameState;
use crate::search::alternate::primitive_montecarlo::status_value_exec;
use crate::search::alternate::{advanced, ChooseAction};
use crate::{TimeKeeper, VALUE_SCALE};

verus! {

/// Hard ceiling on evaluation passes through one node, keeping the win
/// accumulators within `u64`; unreachable in any practical run.
pub const THUNDER_ATTEMPT_CAP: u64 = 1099511627776;

/// One node of the Thunder search tree: the same shape as the Monte Carlo
/// tree, but a freshly created leaf is valued once by the state's own
/// bounded self-estimate and is expanded immediately, with no rollout and
/// no expansion threshold.
pub struct Node<S: AlternateGameState> {
    state: S,
    attempt: u64,
    win: u64,
    child_nodes: Vec<Node<S>>,
}

/// Height of a tree node: one more than the height of its tallest child.
pub closed spec fn node_height<S: AlternateGameState>(n: Node<S>) -> nat
    decreases n, 1int,
{
    seq_height(n.child_nodes@) + 1
}

/// Height of the tallest node of a forest; zero for an empty one.
pub closed spec fn seq_height<S: AlternateGameState>(s: Seq<Node<S>>) -> nat
    decreases s, 0int,
{
    if s.len() == 0 {
        0
    } else {
        let h0 = node_height(s[0]);
        let hr = seq_height(s.drop_first());
        if h0 > hr {
            h0
        } else {
            hr
        }
    }
}

proof fn lemma_seq_height_bound<S: AlternateGameState>(s: Seq<Node<S>>, i: int)
    requires
        0 <= i < s.len(),
    ensures
        node_height(s[i]) <= seq_height(s),
    decreases s.len(),
{
    if i > 0 {
        lemma_seq_height_bound(s.drop_first(), i - 1);
        assert(s.drop_first()[i - 1] == s[i]);
    }
}

/// Well-formedness of a (sub)tree. Besides the shape shared with the
/// Monte Carlo tree, a childless non-terminal node is necessarily fresh:
/// Thunder expands every leaf on its first visit, so such a node has no
/// visits and no accumulated value yet.
pub closed spec fn node_wf<S: AlternateGameState>(n: Node<S>) -> bool
    decreases n,
{
    &&& S::wf(n.state@)
    &&& n.win as int <= ((n.attempt + 1) as int) * (VALUE_SCALE as int)
    &&& (n.child_nodes@.len() == 0 || n.child_nodes@.len() == S::legal(n.state@).len())
    &&& (n.child_nodes@.len() == 0 && S::status_of(n.state@) is None ==> n.attempt == 0 && n.win
        == 0)
    &&& forall|i: int|
        0 <= i < n.child_nodes@.len() ==> {
            let c = #[trigger] n.child_nodes@[i];
            &&& c.state@ == S::step(n.state@, S::legal(n.state@)[i])
            &&& c.attempt <= n.attempt
            &&& node_wf(c)
        }
}

/// Whether the parent-perspective rate of the first child is strictly
/// below that of the second: `1 - w/(n * VALUE_SCALE)` compared exactly
/// by cross multiplication.
pub open spec fn thunder_rate_lt(w1: u64, n1: u64, w2: u64, n2: u64) -> bool {
    ((n1 as int) * (VALUE_SCALE as int) - w1 as int) * (n2 as int) < ((n2 as int) * (
    VALUE_SCALE as int) - w2 as int) * (n1 as int)
}

/// Index of the first never-visited child of the prefix `s[..i]`, if any.
spec fn first_unvisited<S: AlternateGameState>(s: Seq<Node<S>>, i: nat) -> Option<int>
    decreases i,
{
    if i == 0 {
        None
    } else {
        match first_unvisited(s, (i - 1) as nat) {
            Some(j) => Some(j),
            None => if s[i - 1].attempt == 0 {
                Some(i - 1)
            } else {
                None
            },
        }
    }
}

/// Index of the child of the prefix `s[..i]` with the highest
/// parent-perspective rate, ties resolved towards the later index.
spec fn rate_scan<S: AlternateGameState>(s: Seq<Node<S>>, i: nat) -> int
    decreases i,
{
    if i <= 1 {
        0
    } else {
        let p = rate_scan(s, (i - 1) as nat);
        if !thunder_rate_lt(s[i - 1].win, s[i - 1].attempt, s[p].win, s[p].attempt) {
            i - 1
        } else {
            p
        }
    }
}

proof fn lemma_rate_scan_range<S: AlternateGameState>(s: Seq<Node<S>>, i: nat)
    requires
        1 <= i,
    ensures
        0 <= rate_scan(s, i) < i,
    decreases i,
{
    if i > 1 {
        lemma_rate_scan_range(s, (i - 1) as nat);
    }
}

proof fn lemma_first_unvisited_extends<S: AlternateGameState>(s: Seq<Node<S>>, i: nat, j: nat)
    requires
        first_unvisited(s, i) is Some,
        i <= j,
    ensures
        first_unvisited(s, j) == first_unvisited(s, i),
    decreases j,
{
    if i < j {
        lemma_first_unvisited_extends(s, i, (j - 1) as nat);
    }
}

/// Picks the child to descend into: any never-visited child first (the
/// earliest), otherwise the child with the best parent-perspective rate,
/// ties resolved towards the later index; no exploration term.
fn select_child<S: AlternateGameState>(children: &Vec<Node<S>>) -> (r: usize)
    requires
        children@.len() > 0,
        forall|q: int|
            0 <= q < children@.len() ==> (#[trigger] children@[q]).attempt
                <= THUNDER_ATTEMPT_CAP && children@[q].win as int <= ((children@[q].attempt
                + 1) as int) * (VALUE_SCALE as int),
    ensures
        r < children@.len(),
        match first_unvisited(children@, children@.len() as nat) {
            Some(j) => r == j,
            None => r as int == rate_scan(children@, children@.len() as nat),
        },
{
    let n = children.len();
    let mut i: usize = 0;
    while i < n
        invariant
            n == children@.len(),
            i <= n,
            first_unvisited(children@, i as nat) is None,
        decreases n - i,
    {
        if children[i].attempt == 0 {
            proof {
                assert(first_unvisited(children@, (i + 1) as nat) == Some(i as int));
                lemma_first_unvisited_extends(children@, (i + 1) as nat, n as nat);
            }
            return i;
        }
        i += 1;
    }
    let mut best: usize = 0;
    let mut k: usize = 1;
    while k < n
        invariant
            n == children@.len(),
            1 <= k <= n,
            0 <= best < k,
            best as int == rate_scan(children@, k as nat),
            forall|q: int|
                0 <= q < children@.len() ==> (#[trigger] children@[q]).attempt
                    <= THUNDER_ATTEMPT_CAP && children@[q].win as int <= ((children@[q].attempt
                    + 1) as int) * (VALUE_SCALE as int),
        decreases n - k,
    {
        proof {
            lemma_rate_products_bounded(
                children@[k as int].win,
                children@[k as int].attempt,
                children@[best as int].win,
                children@[best as int].attempt,
            );
        }
        let wk = children[k].win as i128;
        let nk = children[k].attempt as i128;
        let wb = children[best].win as i128;
        let nb = children[best].attempt as i128;
        let candidate_better = !((nk * VALUE_SCALE as i128 - wk) * nb < (nb * VALUE_SCALE as i128
            - wb) * nk);
        if candidate_better {
            best = k;
        }
        k += 1;
    }
    proof {
        lemma_rate_scan_range(children@, n as nat);
    }
    best
}

/// The cross products of the exact rate comparison stay well inside
/// `i128`.
proof fn lemma_rate_products_bounded(w1: u64, n1: u64, w2: u64, n2: u64)
    requires
        n1 <= THUNDER_ATTEMPT_CAP,
        n2 <= THUNDER_ATTEMPT_CAP,
        w1 as int <= ((n1 + 1) as int) * (VALUE_SCALE as int),
        w2 as int <= ((n2 + 1) as int) * (VALUE_SCALE as int),
    ensures
        -0x1000000000000000000000000 <= ((n1 as int) * (VALUE_SCALE as int) - w1 as int) * (
        n2 as int) <= 0x1000000000000000000000000,
        -0x1000000000000000000000000 <= ((n2 as int) * (VALUE_SCALE as int) - w2 as int) * (
        n1 as int) <= 0x1000000000000000000000000,
{
    assert(((n1 as int) * (VALUE_SCALE as int) - w1 as int) * (n2 as int)
        <= 0x1000000000000000000000000 && ((n1 as int) * (VALUE_SCALE as int) - w1 as int) * (
    n2 as int) >= -0x1000000000000000000000000 && ((n2 as int) * (VALUE_SCALE as int)
        - w2 as int) * (n1 as int) <= 0x1000000000000000000000000 && ((n2 as int) * (
    VALUE_SCALE as int) - w2 as int) * (n1 as int) >= -0x1000000000000000000000000)
        by (nonlinear_arith)
        requires
            n1 <= THUNDER_ATTEMPT_CAP,
            n2 <= THUNDER_ATTEMPT_CAP,
            0 <= w1,
            0 <= w2,
            w1 as int <= ((n1 + 1) as int) * (VALUE_SCALE as int),
            w2 as int <= ((n2 + 1) as int) * (VALUE_SCALE as int),
            THUNDER_ATTEMPT_CAP == 1099511627776,
            VALUE_SCALE == 65536,
    ;
}

/// Index of the child of the prefix `s[..i]` with the most visits, ties
/// resolved towards the later index: the root action choice.
pub closed spec fn visits_scan<S: AlternateGameState>(s: Seq<Node<S>>, i: nat) -> int
    decreases i,
{
    if i <= 1 {
        0
    } else {
        let p = visits_scan(s, (i - 1) as nat);
        if s[i - 1].attempt >= s[p].attempt {
            i - 1
        } else {
            p
        }
    }
}

/// The index of the most-visited child, ties towards the later index:
/// the rule by which the root action is chosen after the passes (by
/// visit count, not by win rate).
pub fn max_visit_index<S: AlternateGameState>(children: &Vec<Node<S>>) -> (r: usize)
    requires
        children@.len() > 0,
    ensures
        r < children@.len(),
        r as int == visits_scan(children@, children@.len() as nat),
{
    let n = children.len();
    let mut best: usize = 0;
    let mut k: usize = 1;
    while k < n
        invariant
            n == children@.len(),
            1 <= k <= n,
            0 <= best < k,
            best as int == visits_scan(children@, k as nat),
        decreases n - k,
    {
        if children[k].attempt >= children[best].attempt {
            best = k;
        }
        k += 1;
    }
    best
}

impl<S: AlternateGameState> Node<S> {
    /// The number of evaluation passes booked on this node.
    pub closed spec fn spec_visits(&self) -> u64 {
        self.attempt
    }

    /// The accumulated outcome sum of this node, in fixed point.
    pub closed spec fn spec_win_sum(&self) -> u64 {
        self.win
    }

    /// How many children this node currently has.
    pub closed spec fn spec_child_count(&self) -> int {
        self.child_nodes@.len() as int
    }

    /// Every child is fresh: never visited, no accumulated value, no
    /// children of its own.
    pub closed spec fn children_fresh(&self) -> bool {
        forall|i: int|
            0 <= i < self.child_nodes@.len() ==> {
                let c = #[trigger] self.child_nodes@[i];
                c.attempt == 0 && c.win == 0 && c.child_nodes@.len() == 0
            }
    }

    /// The snapshot this node owns.
    pub closed spec fn spec_state(&self) -> S {
        self.state
    }

    /// A fresh, never-visited, childless node owning `state`.
    pub fn new(state: S) -> (r: Self)
        requires
            S::wf(state@),
        ensures
            node_wf(r),
            r.spec_visits() == 0,
            r.spec_win_sum() == 0,
            r.spec_child_count() == 0,
            r.spec_state() == state,
    {
        Node { state, attempt: 0, win: 0, child_nodes: Vec::new() }
    }

    /// The visit count, as an executable getter.
    pub fn visit_count(&self) -> (r: u64)
        ensures
            r == self.spec_visits(),
    {
        self.attempt
    }

    /// Materializes one child per legal action, index-aligned with
    /// `legal_actions`, each owning the successor snapshot.
    pub fn expand(&mut self, legal_actions: &Vec<S::Action>)
        requires
            node_wf(*old(self)),
            old(self).spec_child_count() == 0,
            !S::is_done(old(self).spec_state()@),
            legal_actions@ == S::legal(old(self).spec_state()@),
        ensures
            node_wf(*final(self)),
            final(self).spec_child_count() == legal_actions@.len(),
            final(self).children_fresh(),
            final(self).spec_visits() == old(self).spec_visits(),
            final(self).spec_win_sum() == old(self).spec_win_sum(),
            final(self).spec_state() == old(self).spec_state(),
    {
        let n = legal_actions.len();
        let mut k: usize = 0;
        while k < n
            invariant
                S::wf(self.state@),
                self.win as int <= ((self.attempt + 1) as int) * (VALUE_SCALE as int),
                !S::is_done(self.state@),
                legal_actions@ == S::legal(self.state@),
                n == legal_actions@.len(),
                self.child_nodes@.len() == k,
                k <= n,
                self.state == old(self).state,
                self.attempt == old(self).attempt,
                self.win == old(self).win,
                forall|i: int|
                    0 <= i < k ==> {
                        let c = #[trigger] self.child_nodes@[i];
                        &&& c.state@ == S::step(self.state@, S::legal(self.state@)[i])
                        &&& c.attempt == 0
                        &&& c.win == 0
                        &&& c.child_nodes@.len() == 0
                        &&& node_wf(c)
                    },
            decreases n - k,
        {
            proof {
                assert(S::legal(self.state@).contains(legal_actions@[k as int]));
            }
            let next_state = advanced(&self.state, legal_actions[k]);
            self.child_nodes.push(Node::new(next_state));
            k += 1;
        }
        proof {
            assert(self.child_nodes@.len() == S::legal(self.state@).len());
        }
    }

    /// One evaluation pass from this node: a terminal node books its
    /// outcome; a fresh leaf is valued once by the state's own bounded
    /// self-estimate and expanded immediately, without counting a visit
    /// of its own; a node with children descends into the child with the
    /// best parent-perspective rate and books the negated result.
    pub fn evaluate(&mut self) -> (v: u64)
        requires
            node_wf(*old(self)),
            old(self).spec_visits() < THUNDER_ATTEMPT_CAP,
        ensures
            node_wf(*final(self)),
            final(self).spec_win_sum() == old(self).spec_win_sum() + v,
            v <= VALUE_SCALE,
            final(self).spec_state() == old(self).spec_state(),
            S::status_of(old(self).spec_state()@) is Some || old(self).spec_child_count() > 0
                ==> final(self).spec_visits() == old(self).spec_visits() + 1,
            S::status_of(old(self).spec_state()@) matches Some(st)
                ==> v == crate::search::alternate::primitive_montecarlo::status_value(st),
            S::status_of(old(self).spec_state()@) is None && old(self).spec_child_count() == 0
                ==> final(self).spec_visits() == old(self).spec_visits()
                && final(self).spec_child_count() == S::legal(old(self).spec_state()@).len()
                && v == S::rate_of(old(self).spec_state()@),
            old(self).spec_child_count() > 0
                ==> final(self).spec_child_count() == old(self).spec_child_count(),
        decreases node_height(*old(self)),
    {
        proof {
            lemma_win_headroom(self.attempt, self.win);
        }
        let status = self.state.winning_status();
        match status {
            Some(st) => {
                proof {
                    assert(S::status_of(self.state@) is Some);
                }
                let value = status_value_exec(st);
                self.win = self.win + value;
                self.attempt = self.attempt + 1;
                proof {
                    lemma_win_bound_step(old(self).attempt, old(self).win, value);
                    assert(S::status_of(self.state@) is Some);
                }
                value
            },
            None => {
                proof {
                    S::lemma_status_iff_done(self.state@);
                }
                if self.child_nodes.len() == 0 {
                    proof {
                        S::lemma_rate_bounded(self.state@);
                        S::lemma_nonterminal_can_move(self.state@);
                    }
                    let value = self.state.score_rate();
                    let legal = self.state.legal_actions();
                    self.expand(&legal);
                    self.win = self.win + value;
                    value
                } else {
                    proof {
                        assert forall|q: int|
                            0 <= q < self.child_nodes@.len() implies (#[trigger] self
                            .child_nodes@[q]).attempt <= THUNDER_ATTEMPT_CAP && self
                            .child_nodes@[q].win as int <= ((self.child_nodes@[q].attempt
                            + 1) as int) * (VALUE_SCALE as int) by {
                            assert(node_wf(self.child_nodes@[q]));
                        }
                    }
                    let index = select_child(&self.child_nodes);
                    let ghost pre = *self;
                    proof {
                        assert(node_wf(pre.child_nodes@[index as int]));
                        lemma_seq_height_bound(pre.child_nodes@, index as int);
                        assert(node_height(pre.child_nodes@[index as int]) < node_height(pre));
                    }
                    let child_value = self.child_nodes[index].evaluate();
                    let value = VALUE_SCALE - child_value;
                    self.win = self.win + value;
                    self.attempt = self.attempt + 1;
                    proof {
                        lemma_win_bound_step(old(self).attempt, old(self).win, value);
                        assert(self.child_nodes@ == pre.child_nodes@.update(
                            index as int,
                            self.child_nodes@[index as int],
                        ));
                    }
                    value
                }
            },
        }
    }
}

/// The win sum of a well-formed node leaves headroom for one more booked
/// value below the visit cap.
proof fn lemma_win_headroom(attempt: u64, win: u64)
    requires
        win as int <= ((attempt + 1) as int) * (VALUE_SCALE as int),
        attempt < THUNDER_ATTEMPT_CAP,
    ensures
        win as int + VALUE_SCALE as int <= u64::MAX as int,
{
    assert(((attempt + 1) as int) * (VALUE_SCALE as int) <= 0x100000000000000i64 as int)
        by (nonlinear_arith)
        requires
            attempt < THUNDER_ATTEMPT_CAP,
            THUNDER_ATTEMPT_CAP == 1099511627776,
            VALUE_SCALE == 65536,
    ;
}

/// Booking one value of at most a playout's worth preserves the win-sum
/// bound.
proof fn lemma_win_bound_step(attempt: u64, win: u64, value: u64)
    requires
        win as int <= ((attempt + 1) as int) * (VALUE_SCALE as int),
        value <= VALUE_SCALE,
        attempt < THUNDER_ATTEMPT_CAP,
    ensures
        win as int + value as int <= ((attempt + 2) as int) * (VALUE_SCALE as int),
{
    assert(((attempt + 1) as int) * (VALUE_SCALE as int) + (VALUE_SCALE as int) == ((attempt
        + 2) as int) * (VALUE_SCALE as int)) by (nonlinear_arith);
}

/// Builds a Thunder tree rooted at the given state, runs `playout_number`
/// evaluation passes, and returns the action whose child was visited most
/// often.
pub fn thunder_action<S: AlternateGameState>(state: &S, playout_number: u64) -> (r: Option<
    S::Action,
>)
    requires
        S::wf(state@),
        !S::is_done(state@),
        playout_number <= THUNDER_ATTEMPT_CAP,
    ensures
        r is Some,
        S::legal(state@).contains(r->0),
{
    let legal = state.legal_actions();
    proof {
        S::lemma_nonterminal_can_move(state@);
    }
    proof {
        S::lemma_status_iff_done(state@);
    }
    let mut root = Node::new(state.duplicate());
    root.expand(&legal);
    let mut i: u64 = 0;
    while i < playout_number
        invariant
            node_wf(root),
            root.spec_visits() == i,
            i <= playout_number <= THUNDER_ATTEMPT_CAP,
            root.spec_child_count() == legal@.len(),
            S::status_of(root.spec_state()@) is None,
            legal@ == S::legal(state@),
            legal@.len() > 0,
        decreases playout_number - i,
    {
        root.evaluate();
        i += 1;
    }
    let best = max_visit_index(&root.child_nodes);
    proof {
        assert(S::legal(state@).contains(legal@[best as int]));
    }
    Some(legal[best])
}

/// Builds a Thunder tree rooted at the given state and runs evaluation
/// passes until the deadline fires, then returns the action whose root
/// child was visited most often (the [`max_visit_index`] rule). The
/// deadline only bounds the number of passes: an answer always exists,
/// and it is always a legal action of the given state.
pub fn thunder_deadline_action<S: AlternateGameState>(
    state: &S,
    threshold: std::time::Duration,
) -> (r: Option<S::Action>)
    requires
        S::wf(state@),
        !S::is_done(state@),
    ensures
        r is Some,
        S::legal(state@).contains(r->0),
{
    let time_keeper = TimeKeeper::new(threshold);
    let legal = state.legal_actions();
    proof {
        S::lemma_nonterminal_can_move(state@);
    }
    proof {
        S::lemma_status_iff_done(state@);
    }
    let mut root = Node::new(state.duplicate());
    root.expand(&legal);
    let mut i: u64 = 0;
    while i < THUNDER_ATTEMPT_CAP
        invariant
            node_wf(root),
            root.spec_visits() == i,
            i <= THUNDER_ATTEMPT_CAP,
            root.spec_child_count() == legal@.len(),
            S::status_of(root.spec_state()@) is None,
            legal@ == S::legal(state@),
            legal@.len() > 0,
        decreases THUNDER_ATTEMPT_CAP - i,
    {
        if time_keeper.time_over() {
            break ;
        }
        root.evaluate();
        i += 1;
    }
    let best = max_visit_index(&root.child_nodes);
    proof {
        assert(S::legal(state@).contains(legal@[best as int]));
    }
    Some(legal[best])
}

/// Thunder search under a wall-clock deadline: evaluation passes repeat
/// from the root until the deadline fires, and the most-visited root
/// action is returned.
pub struct Thunder {
    threshold: std::time::Duration,
}

impl Thunder {
    /// The configured deadline threshold.
    pub closed spec fn spec_threshold(&self) -> std::time::Duration {
        self.threshold
    }

    pub fn new(threshold: std::time::Duration) -> (r: Self)
        ensures
            r.spec_threshold() == threshold,
    {
        Thunder { threshold }
    }
}

impl<S: AlternateGameState> ChooseAction<S> for Thunder {
    fn choose_action(&self, state: &S) -> Option<S::Action> {
        thunder_deadline_action(state, self.threshold)
    }
}

} // verus!
