use vstd::prelude::*;

verus! {

/// A priority queue of `(priority, node id)` entries that hands out the entry of
/// least priority first; among equal priorities, the one pushed earliest.
/// Superseded entries are not removed when a better one is pushed: the
/// consumer skips them when they come out.
pub struct MinQueue {
    entries: Vec<(u128, usize)>,
}

impl View for MinQueue {
    type V = Seq<(u128, usize)>;

    closed spec fn view(&self) -> Seq<(u128, usize)> {
        self.entries@
    }
}

impl MinQueue {
    /// An empty queue.
    pub fn new() -> (r: Self)
        ensures
            r@ == Seq::<(u128, usize)>::empty(),
    {
        MinQueue { entries: Vec::new() }
    }

    /// Whether no entry is left.
    pub fn is_empty(&self) -> (r: bool)
        ensures
            r == (self@.len() == 0),
    {
        self.entries.len() == 0
    }

    /// Adds an entry.
    pub fn push(&mut self, priority: u128, id: usize)
        ensures
            final(self)@ == old(self)@.push((priority, id)),
    {
        self.entries.push((priority, id));
    }

    /// Removes and returns the earliest entry of least priority.
    pub fn pop_min(&mut self) -> (r: (u128, usize))
        requires
            old(self)@.len() > 0,
        ensures
            exists|i: int|
                0 <= i < old(self)@.len() && r == old(self)@[i] && final(self)@ == old(self)@.remove(i)
                    && forall|k: int| 0 <= k < i ==> old(self)@[k].0 > r.0,
            forall|k: int| 0 <= k < old(self)@.len() ==> r.0 <= (#[trigger] old(self)@[k]).0,
    {
        let mut best: usize = 0;
        let mut k: usize = 1;
        while k < self.entries.len()
            invariant
                self@ == old(self)@,
                1 <= k <= self@.len(),
                best < k,
                forall|j: int| 0 <= j < k ==> self@[best as int].0 <= (#[trigger] self@[j]).0,
                forall|j: int| 0 <= j < best ==> (#[trigger] self@[j]).0 > self@[best as int].0,
            decreases self@.len() - k,
        {
            if self.entries[k].0 < self.entries[best].0 {
                best = k;
            }
            k = k + 1;
        }
        self.entries.remove(best)
    }
}

} // verus!
