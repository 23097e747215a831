use vstd::prelude::*;

use priority_queue::PriorityQueue;
use std::cmp::Reverse;

verus! {

/// The min-priority queue of not-yet-finalized (cost, state) entries,
/// ordered by tentative cumulative cost.
///
/// Backed by `priority_queue::PriorityQueue`, which pops the item with the
/// greatest priority. Each entry's priority is the reversed entry itself,
/// so a pop returns the least (cost, state) pair in lexicographic order:
/// ties on cost are broken deterministically by the smaller state index,
/// and the queue holds at most one copy of each distinct pair.
#[verifier::external_body]
pub struct Frontier {
    q: PriorityQueue<(u64, usize), Reverse<(u64, usize)>>,
}

/// The set of (cost, state) entries a frontier holds.
pub uninterp spec fn frontier_entries(f: &Frontier) -> Set<(u64, usize)>;

/// The pop order: least cost first; equal costs are broken by state index.
pub open spec fn entry_le(a: (u64, usize), b: (u64, usize)) -> bool {
    a.0 < b.0 || (a.0 == b.0 && a.1 <= b.1)
}

impl Frontier {
    /// Relies on `PriorityQueue::new`: creates an empty queue.
    #[verifier::external_body]
    pub fn new() -> (f: Frontier)
        ensures
            frontier_entries(&f) == Set::<(u64, usize)>::empty(),
            frontier_entries(&f).finite(),
    {
        Frontier { q: PriorityQueue::new() }
    }

    /// Relies on `PriorityQueue::push`: inserts the pair, or replaces the
    /// priority of an equal pair already present. The priority is derived
    /// from the pair itself, so re-pushing a present pair changes nothing.
    #[verifier::external_body]
    pub fn push(&mut self, cost: u64, state: usize)
        ensures
            frontier_entries(final(self)) == frontier_entries(old(self)).insert((cost, state)),
    {
        self.q.push((cost, state), Reverse((cost, state)));
    }

    /// Relies on `PriorityQueue::pop`: removes and returns the item with
    /// the greatest priority, or `None` exactly when the queue is empty.
    /// Under the reversed ordering that item is the lexicographically least
    /// (cost, state) pair, and no two distinct items share a priority.
    #[verifier::external_body]
    pub fn pop(&mut self) -> (r: Option<(u64, usize)>)
        ensures
            match r {
                None => {
                    &&& frontier_entries(final(self)) == frontier_entries(old(self))
                    &&& frontier_entries(old(self)) == Set::<(u64, usize)>::empty()
                },
                Some(e) => {
                    &&& frontier_entries(old(self)).contains(e)
                    &&& frontier_entries(final(self)) == frontier_entries(old(self)).remove(e)
                    &&& forall|e2: (u64, usize)|
                        frontier_entries(old(self)).contains(e2) ==> entry_le(e, e2)
                },
            },
    {
        self.q.pop().map(|p| p.0)
    }
}

} // verus!
