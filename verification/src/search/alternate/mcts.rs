use vstd::prelude::*;

use crate::fixed_point::{isqrt, ln_fp, spec_isqrt, spec_ln_fp};
use crate::game::alternate::AlternateGameState;
use crate::search::alternate::primitive_montecarlo::playout;
use crate::search::alternate::{advanced, ChooseAction};
use crate::{TimeKeeper, VALUE_SCALE};

verus! {

/// Number of visits after which a leaf materializes its children.
pub const EXPAND_THRESHOLD: u64 = 10;

/// Hard ceiling on evaluation passes through one node, keeping the win
/// accumulators within `u64`; unreachable in any practical run.
pub const ATTEMPT_CAP: u64 = 1099511627776;

/// One node of the search tree: a state snapshot, a visit count, a
/// cumulative outcome sum in fixed point, and the ordered children,
/// created all at once at expansion and index-aligned with the legal
/// actions of the snapshot.
pub struct Node<S: AlternateGameState> {
    state: S,
    attempt: u64,
    win: u64,
    child_nodes: Vec<Node<S>>,
}

/// Height of a tree node: one more than the height of its tallest child.
pub closed spec fn node_height<S: AlternateGameState>(n: Node<S>) -> nat
    decreases n, 1int,
{
    seq_height(n.child_nodes@) + 1
}

/// Height of the tallest node of a forest; zero for an empty one.
pub closed spec fn seq_height<S: AlternateGameState>(s: Seq<Node<S>>) -> nat
    decreases s, 0int,
{
    if s.len() == 0 {
        0
    } else {
        let h0 = node_height(s[0]);
        let hr = seq_height(s.drop_first());
        if h0 > hr {
            h0
        } else {
            hr
        }
    }
}

proof fn lemma_seq_height_bound<S: AlternateGameState>(s: Seq<Node<S>>, i: int)
    requires
        0 <= i < s.len(),
    ensures
        node_height(s[i]) <= seq_height(s),
    decreases s.len(),
{
    if i > 0 {
        lemma_seq_height_bound(s.drop_first(), i - 1);
        assert(s.drop_first()[i - 1] == s[i]);
    }
}

/// Well-formedness of a (sub)tree: the snapshot is well-formed, the win
/// sum stays within one playout's worth of the visit count, and the
/// children — if materialized — are index-aligned successors of the
/// snapshot, never visited more often than their parent, and well-formed
/// themselves.
pub closed spec fn node_wf<S: AlternateGameState>(n: Node<S>) -> bool
    decreases n,
{
    &&& S::wf(n.state@)
    &&& n.win as int <= ((n.attempt + 1) as int) * (VALUE_SCALE as int)
    &&& (n.child_nodes@.len() == 0 || n.child_nodes@.len() == S::legal(n.state@).len())
    &&& forall|i: int|
        0 <= i < n.child_nodes@.len() ==> {
            let c = #[trigger] n.child_nodes@[i];
            &&& c.state@ == S::step(n.state@, S::legal(n.state@)[i])
            &&& c.attempt <= n.attempt
            &&& node_wf(c)
        }
}

/// The UCB1 ranking value of a child with win sum `w` and `n >= 1` visits
/// under `t` total sibling visits, in fixed point: the parent-perspective
/// exploitation term `VALUE_SCALE - w / n` plus the exploration bonus
/// `sqrt(2 * ln(t) / n)` scaled by [`VALUE_SCALE`].
pub open spec fn ucb1_fp(w: u64, n: u64, t: u64) -> int {
    (VALUE_SCALE as int - (w as int) / (n as int)) + spec_isqrt(
        (2 * spec_ln_fp(t as int) * (VALUE_SCALE as int)) / (n as int),
    )
}

/// Computes [`ucb1_fp`] exactly.
fn ucb1_value(w: u64, n: u64, t: u64) -> (r: i128)
    requires
        n >= 1,
        t >= 1,
    ensures
        r as int == ucb1_fp(w, n, t),
{
    let exploit: i128 = VALUE_SCALE as i128 - (w / n) as i128;
    let ln = ln_fp(t);
    let explore: u64 = isqrt((2 * ln) * VALUE_SCALE / n);
    exploit + explore as i128
}

/// Index of the first never-visited child of the prefix `s[..i]`, if any.
spec fn first_unvisited<S: AlternateGameState>(s: Seq<Node<S>>, i: nat) -> Option<int>
    decreases i,
{
    if i == 0 {
        None
    } else {
        match first_unvisited(s, (i - 1) as nat) {
            Some(j) => Some(j),
            None => if s[i - 1].attempt == 0 {
                Some(i - 1)
            } else {
                None
            },
        }
    }
}

/// Index of the child of the prefix `s[..i]` with the highest UCB1 value
/// under `t` total visits, ties resolved towards the later index.
spec fn ucb1_scan<S: AlternateGameState>(s: Seq<Node<S>>, t: u64, i: nat) -> int
    decreases i,
{
    if i <= 1 {
        0
    } else {
        let p = ucb1_scan(s, t, (i - 1) as nat);
        if ucb1_fp(s[i - 1].win, s[i - 1].attempt, t) >= ucb1_fp(s[p].win, s[p].attempt, t) {
            i - 1
        } else {
            p
        }
    }
}

proof fn lemma_ucb1_scan_range<S: AlternateGameState>(s: Seq<Node<S>>, t: u64, i: nat)
    requires
        1 <= i,
    ensures
        0 <= ucb1_scan(s, t, i) < i,
    decreases i,
{
    if i > 1 {
        lemma_ucb1_scan_range(s, t, (i - 1) as nat);
    }
}

/// The saturating sum of the visit counts of the prefix `s[..i]`.
spec fn visits_sum<S: AlternateGameState>(s: Seq<Node<S>>, i: nat) -> u64
    decreases i,
{
    if i == 0 {
        0
    } else {
        visits_sum(s, (i - 1) as nat).saturating_add(s[i - 1].attempt)
    }
}

/// Picks the child to descend into: any never-visited child first (the
/// earliest), otherwise the child maximizing UCB1 under the summed
/// sibling visits, ties resolved towards the later index.
fn select_child<S: AlternateGameState>(children: &Vec<Node<S>>) -> (r: usize)
    requires
        children@.len() > 0,
    ensures
        r < children@.len(),
        match first_unvisited(children@, children@.len() as nat) {
            Some(j) => r == j,
            None => r as int == ucb1_scan(
                children@,
                visits_sum(children@, children@.len() as nat),
                children@.len() as nat,
            ),
        },
{
    let n = children.len();
    let mut i: usize = 0;
    while i < n
        invariant
            n == children@.len(),
            i <= n,
            first_unvisited(children@, i as nat) is None,
        decreases n - i,
    {
        if children[i].attempt == 0 {
            proof {
                assert(first_unvisited(children@, (i + 1) as nat) == Some(i as int));
                lemma_first_unvisited_extends(children@, (i + 1) as nat, n as nat);
            }
            return i;
        }
        i += 1;
    }
    let mut total: u64 = 0;
    let mut j: usize = 0;
    while j < n
        invariant
            n == children@.len(),
            j <= n,
            total == visits_sum(children@, j as nat),
        decreases n - j,
    {
        total = total.saturating_add(children[j].attempt);
        j += 1;
    }
    let ghost t_ghost = total;
    proof {
        assert(first_unvisited(children@, n as nat) is None);
        assert forall|q: int| 0 <= q < n implies (#[trigger] children@[q]).attempt >= 1 by {
            lemma_first_unvisited_none(children@, n as nat, q);
        }
        assert(total >= 1) by {
            lemma_visits_sum_lower(children@, n as nat);
        }
    }
    let mut best: usize = 0;
    let mut best_value = ucb1_value(children[0].win, children[0].attempt, total);
    let mut k: usize = 1;
    while k < n
        invariant
            n == children@.len(),
            1 <= k <= n,
            0 <= best < k,
            total == t_ghost,
            total >= 1,
            forall|q: int| 0 <= q < n ==> (#[trigger] children@[q]).attempt >= 1,
            best as int == ucb1_scan(children@, total, k as nat),
            best_value as int == ucb1_fp(
                children@[best as int].win,
                children@[best as int].attempt,
                total,
            ),
        decreases n - k,
    {
        let value = ucb1_value(children[k].win, children[k].attempt, total);
        if value >= best_value {
            best = k;
            best_value = value;
        }
        k += 1;
    }
    proof {
        lemma_ucb1_scan_range(children@, total, n as nat);
    }
    best
}

proof fn lemma_first_unvisited_extends<S: AlternateGameState>(s: Seq<Node<S>>, i: nat, j: nat)
    requires
        first_unvisited(s, i) is Some,
        i <= j,
    ensures
        first_unvisited(s, j) == first_unvisited(s, i),
    decreases j,
{
    if i < j {
        lemma_first_unvisited_extends(s, i, (j - 1) as nat);
    }
}

proof fn lemma_first_unvisited_none<S: AlternateGameState>(s: Seq<Node<S>>, i: nat, q: int)
    requires
        first_unvisited(s, i) is None,
        0 <= q < i,
    ensures
        s[q].attempt >= 1,
    decreases i,
{
    if q < i - 1 {
        lemma_first_unvisited_none(s, (i - 1) as nat, q);
    }
}

proof fn lemma_visits_sum_lower<S: AlternateGameState>(s: Seq<Node<S>>, i: nat)
    requires
        i >= 1,
        s[i - 1].attempt >= 1,
    ensures
        visits_sum(s, i) >= 1,
{
}

/// Index of the child of the prefix `s[..i]` with the most visits, ties
/// resolved towards the later index: the root action choice.
pub closed spec fn visits_scan<S: AlternateGameState>(s: Seq<Node<S>>, i: nat) -> int
    decreases i,
{
    if i <= 1 {
        0
    } else {
        let p = visits_scan(s, (i - 1) as nat);
        if s[i - 1].attempt >= s[p].attempt {
            i - 1
        } else {
            p
        }
    }
}

/// The index of the most-visited child, ties towards the later index:
/// the rule by which the root action is chosen after the passes (by
/// visit count, not by win rate).
pub fn max_visit_index<S: AlternateGameState>(children: &Vec<Node<S>>) -> (r: usize)
    requires
        children@.len() > 0,
    ensures
        r < children@.len(),
        r as int == visits_scan(children@, children@.len() as nat),
{
    let n = children.len();
    let mut best: usize = 0;
    let mut k: usize = 1;
    while k < n
        invariant
            n == children@.len(),
            1 <= k <= n,
            0 <= best < k,
            best as int == visits_scan(children@, k as nat),
        decreases n - k,
    {
        if children[k].attempt >= children[best].attempt {
            best = k;
        }
        k += 1;
    }
    best
}

impl<S: AlternateGameState> Node<S> {
    /// The number of evaluation passes that went through this node.
    pub closed spec fn spec_visits(&self) -> u64 {
        self.attempt
    }

    /// The accumulated outcome sum of this node, in fixed point.
    pub closed spec fn spec_win_sum(&self) -> u64 {
        self.win
    }

    /// How many children this node currently has.
    pub closed spec fn spec_child_count(&self) -> int {
        self.child_nodes@.len() as int
    }

    /// Every child is fresh: never visited, no accumulated value, no
    /// children of its own.
    pub closed spec fn children_fresh(&self) -> bool {
        forall|i: int|
            0 <= i < self.child_nodes@.len() ==> {
                let c = #[trigger] self.child_nodes@[i];
                c.attempt == 0 && c.win == 0 && c.child_nodes@.len() == 0
            }
    }

    /// The snapshot this node owns.
    pub closed spec fn spec_state(&self) -> S {
        self.state
    }

    /// A fresh, never-visited, childless node owning `state`.
    pub fn new(state: S) -> (r: Self)
        requires
            S::wf(state@),
        ensures
            node_wf(r),
            r.spec_visits() == 0,
            r.spec_win_sum() == 0,
            r.spec_child_count() == 0,
            r.spec_state() == state,
    {
        Node { state, attempt: 0, win: 0, child_nodes: Vec::new() }
    }

    /// The visit count, as an executable getter.
    pub fn visit_count(&self) -> (r: u64)
        ensures
            r == self.spec_visits(),
    {
        self.attempt
    }

    /// Materializes one child per legal action, index-aligned with
    /// `legal_actions`, each owning the successor snapshot.
    pub fn expand(&mut self, legal_actions: &Vec<S::Action>)
        requires
            node_wf(*old(self)),
            old(self).spec_child_count() == 0,
            !S::is_done(old(self).spec_state()@),
            legal_actions@ == S::legal(old(self).spec_state()@),
        ensures
            node_wf(*final(self)),
            final(self).spec_child_count() == legal_actions@.len(),
            final(self).children_fresh(),
            final(self).spec_visits() == old(self).spec_visits(),
            final(self).spec_win_sum() == old(self).spec_win_sum(),
            final(self).spec_state() == old(self).spec_state(),
    {
        let n = legal_actions.len();
        let mut k: usize = 0;
        while k < n
            invariant
                S::wf(self.state@),
                self.win as int <= ((self.attempt + 1) as int) * (VALUE_SCALE as int),
                !S::is_done(self.state@),
                legal_actions@ == S::legal(self.state@),
                n == legal_actions@.len(),
                self.child_nodes@.len() == k,
                k <= n,
                self.state == old(self).state,
                self.attempt == old(self).attempt,
                self.win == old(self).win,
                forall|i: int|
                    0 <= i < k ==> {
                        let c = #[trigger] self.child_nodes@[i];
                        &&& c.state@ == S::step(self.state@, S::legal(self.state@)[i])
                        &&& c.attempt == 0
                        &&& c.win == 0
                        &&& c.child_nodes@.len() == 0
                        &&& node_wf(c)
                    },
            decreases n - k,
        {
            proof {
                assert(S::legal(self.state@).contains(legal_actions@[k as int]));
            }
            let next_state = advanced(&self.state, legal_actions[k]);
            self.child_nodes.push(Node::new(next_state));
            k += 1;
        }
        proof {
            assert(self.child_nodes@.len() == S::legal(self.state@).len());
        }
    }

    /// One evaluation pass from this node: a terminal node books its
    /// outcome; a childless node books one random playout and expands
    /// once its visits reach [`EXPAND_THRESHOLD`]; a node with children
    /// descends into the selected child and books the negated result.
    /// Exactly one visit and the returned value are added to this node's
    /// statistics.
    pub fn evaluate(&mut self) -> (v: u64)
        requires
            node_wf(*old(self)),
            old(self).spec_visits() < ATTEMPT_CAP,
        ensures
            node_wf(*final(self)),
            final(self).spec_visits() == old(self).spec_visits() + 1,
            final(self).spec_win_sum() == old(self).spec_win_sum() + v,
            v <= VALUE_SCALE,
            final(self).spec_state() == old(self).spec_state(),
            old(self).spec_child_count() > 0 ==> final(self).spec_child_count() == old(
                self,
            ).spec_child_count(),
            S::status_of(old(self).spec_state()@) matches Some(st) ==> v == crate::search::alternate::primitive_montecarlo::status_value(
                st,
            ) && final(self).spec_child_count() == old(self).spec_child_count(),
            S::status_of(old(self).spec_state()@) is None && old(self).spec_child_count() == 0
                ==> final(self).spec_child_count() == (if old(self).spec_visits() + 1
                == EXPAND_THRESHOLD {
                S::legal(old(self).spec_state()@).len() as int
            } else {
                0
            }),
        decreases node_height(*old(self)),
    {
        proof {
            lemma_win_headroom(self.attempt, self.win);
        }
        let status = self.state.winning_status();
        match status {
            Some(st) => {
                let value = crate::search::alternate::primitive_montecarlo::status_value_exec(st);
                self.win = self.win + value;
                self.attempt = self.attempt + 1;
                proof {
                    lemma_win_bound_step(old(self).attempt, old(self).win, value);
                }
                value
            },
            None => {
                proof {
                    S::lemma_status_iff_done(self.state@);
                }
                if self.child_nodes.len() == 0 {
                    let mut rollout_state = self.state.duplicate();
                    let value = playout(&mut rollout_state);
                    self.win = self.win + value;
                    self.attempt = self.attempt + 1;
                    proof {
                        lemma_win_bound_step(old(self).attempt, old(self).win, value);
                    }
                    if self.attempt == EXPAND_THRESHOLD {
                        let legal = self.state.legal_actions();
                        self.expand(&legal);
                    }
                    value
                } else {
                    let index = select_child(&self.child_nodes);
                    let ghost pre = *self;
                    proof {
                        assert(node_wf(pre.child_nodes@[index as int]));
                        lemma_seq_height_bound(pre.child_nodes@, index as int);
                        assert(node_height(pre.child_nodes@[index as int]) < node_height(pre));
                    }
                    let child_value = self.child_nodes[index].evaluate();
                    let value = VALUE_SCALE - child_value;
                    self.win = self.win + value;
                    self.attempt = self.attempt + 1;
                    proof {
                        lemma_win_bound_step(old(self).attempt, old(self).win, value);
                        assert(self.child_nodes@ == pre.child_nodes@.update(
                            index as int,
                            self.child_nodes@[index as int],
                        ));
                    }
                    value
                }
            },
        }
    }
}

/// The win sum of a well-formed node leaves headroom for one more booked
/// value below the visit cap.
proof fn lemma_win_headroom(attempt: u64, win: u64)
    requires
        win as int <= ((attempt + 1) as int) * (VALUE_SCALE as int),
        attempt < ATTEMPT_CAP,
    ensures
        win as int + VALUE_SCALE as int <= u64::MAX as int,
{
    assert(((attempt + 1) as int) * (VALUE_SCALE as int) <= 0x100000000000000i64 as int)
        by (nonlinear_arith)
        requires
            attempt < ATTEMPT_CAP,
            ATTEMPT_CAP == 1099511627776,
            VALUE_SCALE == 65536,
    ;
}

/// Booking one value of at most a playout's worth preserves the win-sum
/// bound.
proof fn lemma_win_bound_step(attempt: u64, win: u64, value: u64)
    requires
        win as int <= ((attempt + 1) as int) * (VALUE_SCALE as int),
        value <= VALUE_SCALE,
        attempt < ATTEMPT_CAP,
    ensures
        win as int + value as int <= ((attempt + 2) as int) * (VALUE_SCALE as int),
{
    assert(((attempt + 1) as int) * (VALUE_SCALE as int) + (VALUE_SCALE as int) == ((attempt
        + 2) as int) * (VALUE_SCALE as int)) by (nonlinear_arith);
}

/// Builds a tree rooted at the given state, runs `playout_number`
/// evaluation passes, and returns the action whose child was visited most
/// often (not the one with the best win rate).
pub fn mcts_action<S: AlternateGameState>(state: &S, playout_number: u64) -> (r: Option<
    S::Action,
>)
    requires
        S::wf(state@),
        !S::is_done(state@),
        playout_number <= ATTEMPT_CAP,
    ensures
        r is Some,
        S::legal(state@).contains(r->0),
{
    let legal = state.legal_actions();
    proof {
        S::lemma_nonterminal_can_move(state@);
    }
    let mut root = Node::new(state.duplicate());
    root.expand(&legal);
    let mut i: u64 = 0;
    while i < playout_number
        invariant
            node_wf(root),
            root.spec_visits() == i,
            i <= playout_number <= ATTEMPT_CAP,
            root.spec_child_count() == legal@.len(),
            legal@ == S::legal(state@),
            legal@.len() > 0,
        decreases playout_number - i,
    {
        root.evaluate();
        i += 1;
    }
    let best = max_visit_index(&root.child_nodes);
    proof {
        assert(S::legal(state@).contains(legal@[best as int]));
    }
    Some(legal[best])
}

/// Builds a tree rooted at the given state and runs evaluation passes
/// until the deadline fires, then returns the action whose root child was
/// visited most often (the [`max_visit_index`] rule). The deadline only
/// bounds the number of passes: an answer always exists, and it is always
/// a legal action of the given state.
pub fn mcts_deadline_action<S: AlternateGameState>(
    state: &S,
    threshold: std::time::Duration,
) -> (r: Option<S::Action>)
    requires
        S::wf(state@),
        !S::is_done(state@),
    ensures
        r is Some,
        S::legal(state@).contains(r->0),
{
    let time_keeper = TimeKeeper::new(threshold);
    let legal = state.legal_actions();
    proof {
        S::lemma_nonterminal_can_move(state@);
    }
    let mut root = Node::new(state.duplicate());
    root.expand(&legal);
    let mut i: u64 = 0;
    while i < ATTEMPT_CAP
        invariant
            node_wf(root),
            root.spec_visits() == i,
            i <= ATTEMPT_CAP,
            root.spec_child_count() == legal@.len(),
            legal@ == S::legal(state@),
            legal@.len() > 0,
        decreases ATTEMPT_CAP - i,
    {
        if time_keeper.time_over() {
            break ;
        }
        root.evaluate();
        i += 1;
    }
    let best = max_visit_index(&root.child_nodes);
    proof {
        assert(S::legal(state@).contains(legal@[best as int]));
    }
    Some(legal[best])
}

/// Monte Carlo tree search under a wall-clock deadline: evaluation passes
/// repeat from the root until the deadline fires, and the most-visited
/// root action is returned.
pub struct MCTS {
    threshold: std::time::Duration,
}

impl MCTS {
    /// The configured deadline threshold.
    pub closed spec fn spec_threshold(&self) -> std::time::Duration {
        self.threshold
    }

    pub fn new(threshold: std::time::Duration) -> (r: Self)
        ensures
            r.spec_threshold() == threshold,
    {
        MCTS { threshold }
    }
}

impl<S: AlternateGameState> ChooseAction<S> for MCTS {
    fn choose_action(&self, state: &S) -> Option<S::Action> {
        mcts_deadline_action(state, self.threshold)
    }
}

} // verus!
