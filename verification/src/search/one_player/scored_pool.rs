use vstd::prelude::*;

verus! {

/// One frontier entry of a beam-family search: a state, its evaluated
/// score cached at push time (the ranking key), and the first action taken
/// at the root to reach it (`None` only for the initial state).
pub struct Tagged<S, A> {
    pub score: u32,
    pub state: S,
    pub first: Option<A>,
}

/// Index of the best entry of the prefix `s[..i]`: the first entry with
/// the maximal score, since a later entry replaces the running best only
/// with a strictly larger score.
pub open spec fn best_index_upto<S, A>(s: Seq<Tagged<S, A>>, i: nat) -> int
    decreases i,
{
    if i <= 1 {
        0
    } else {
        let p = best_index_upto(s, (i - 1) as nat);
        if s[i - 1].score > s[p].score {
            i - 1
        } else {
            p
        }
    }
}

/// Index of the first entry with the maximal score of the whole sequence.
pub open spec fn spec_best_index<S, A>(s: Seq<Tagged<S, A>>) -> int {
    best_index_upto(s, s.len() as nat)
}

pub proof fn lemma_best_index_upto<S, A>(s: Seq<Tagged<S, A>>, i: nat)
    requires
        1 <= i <= s.len(),
    ensures
        0 <= best_index_upto(s, i) < i,
        forall|j: int| 0 <= j < i ==> (#[trigger] s[j]).score <= s[best_index_upto(s, i)].score,
    decreases i,
{
    if i > 1 {
        lemma_best_index_upto(s, (i - 1) as nat);
    }
}

pub proof fn lemma_best_index<S, A>(s: Seq<Tagged<S, A>>)
    requires
        s.len() > 0,
    ensures
        0 <= spec_best_index(s) < s.len(),
        forall|j: int| 0 <= j < s.len() ==> (#[trigger] s[j]).score <= s[spec_best_index(s)].score,
{
    lemma_best_index_upto(s, s.len() as nat);
}

/// A max-priority frontier ordered by the cached score, in place of a
/// binary heap: `pop_best` removes the first entry holding the maximal
/// score. Ties therefore favor the entry pushed earliest.
pub struct ScoredPool<S, A> {
    items: Vec<Tagged<S, A>>,
}

impl<S, A> View for ScoredPool<S, A> {
    type V = Seq<Tagged<S, A>>;

    closed spec fn view(&self) -> Seq<Tagged<S, A>> {
        self.items@
    }
}

impl<S, A> ScoredPool<S, A> {
    pub fn new() -> (r: Self)
        ensures
            r@ == Seq::<Tagged<S, A>>::empty(),
    {
        ScoredPool { items: Vec::new() }
    }

    pub fn len(&self) -> (r: usize)
        ensures
            r == self@.len(),
    {
        self.items.len()
    }

    pub fn push(&mut self, entry: Tagged<S, A>)
        ensures
            final(self)@ == old(self)@.push(entry),
    {
        self.items.push(entry);
    }

    /// The index `pop_best` would remove, or `None` on an empty pool.
    pub fn best_index(&self) -> (r: Option<usize>)
        ensures
            self@.len() == 0 ==> r is None,
            self@.len() > 0 ==> r == Some(spec_best_index(self@) as usize),
            r matches Some(b) ==> (b as int) == spec_best_index(self@) && (b as int) < self@.len(),
    {
        if self.items.len() == 0 {
            return None;
        }
        proof {
            lemma_best_index(self@);
        }
        let mut best: usize = 0;
        let mut i: usize = 1;
        while i < self.items.len()
            invariant
                1 <= i <= self.items@.len(),
                best as int == best_index_upto(self.items@, i as nat),
                0 <= best < i,
            decreases self.items@.len() - i,
        {
            if self.items[i].score > self.items[best].score {
                best = i;
            }
            i += 1;
        }
        Some(best)
    }

    /// The entry at a known index.
    pub fn get(&self, i: usize) -> (r: &Tagged<S, A>)
        requires
            i < self@.len(),
        ensures
            *r == self@[i as int],
    {
        &self.items[i]
    }

    /// Removes and returns the first entry with the maximal score; `None`
    /// on an empty pool, which stays empty.
    pub fn pop_best(&mut self) -> (r: Option<Tagged<S, A>>)
        ensures
            old(self)@.len() == 0 ==> r is None && final(self)@ == old(self)@,
            old(self)@.len() > 0 ==> {
                let b = spec_best_index(old(self)@);
                &&& r == Some(old(self)@[b])
                &&& final(self)@ == old(self)@.remove(b)
                &&& forall|j: int|
                    0 <= j < old(self)@.len() ==> old(self)@[j].score <= old(self)@[b].score
            },
    {
        proof {
            if self@.len() > 0 {
                lemma_best_index(self@);
            }
        }
        match self.best_index() {
            None => None,
            Some(b) => Some(self.items.remove(b)),
        }
    }
}

} // verus!
