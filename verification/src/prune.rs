use vstd::prelude::*;

use crate::grid_model::GridModel;
use crate::paths::goal_trace;
use crate::space::StateSpace;

verus! {

/// An early-discard rule over frontier entries. When the driver pops an
/// entry (state, tentative cost) that the policy discards, the entry is
/// dropped without being finalized or expanded.
///
/// A policy is only safe to use when it is sound for the search problem at
/// hand (`prune_sound_for`): it may discard an entry only when no
/// continuation of that entry can still produce an answer, so pruning
/// changes the exploration count but never the optimal cost. The driver
/// starts with no best-known answer, so "cannot improve it" means that no
/// goal trace passes through the discarded entry at all.
pub trait PruningPolicy: Sized {
    /// Which (state, tentative cost) entries the policy discards.
    spec fn discards(&self, s: int, c: int) -> bool;

    /// The executable discard check, pinned to `discards`.
    fn should_discard(&self, s: usize, c: u64) -> (r: bool)
        ensures
            r == self.discards(s as int, c as int),
    ;
}

/// Soundness of a pruning policy for a given search problem: whenever the
/// policy discards an entry (s, c), no goal trace visits state `s` with a
/// cumulative cost of `c` or more. Dropping such an entry cannot cut any
/// goal trace off from its frontier witness, so the optimal answer is
/// preserved (the pruning-equivalence law in `laws`).
pub open spec fn prune_sound_for<S: StateSpace, P: PruningPolicy>(
    policy: &P,
    space: &S,
    grid: &GridModel,
) -> bool {
    forall|tr: Seq<(int, int)>, k: int, c: int|
        #![trigger goal_trace(space, grid, tr), policy.discards(tr[k].0, c)]
        goal_trace(space, grid, tr) && 0 <= k < tr.len() && policy.discards(tr[k].0, c) ==> tr[k].1
            < c
}

/// The trivial policy: discards nothing. `SearchDriver::run` uses it for
/// the plain, unpruned search.
pub struct NoPruning;

impl PruningPolicy for NoPruning {
    open spec fn discards(&self, s: int, c: int) -> bool {
        false
    }

    fn should_discard(&self, s: usize, c: u64) -> (r: bool) {
        false
    }
}

/// A policy that discards nothing is sound for every search problem.
pub proof fn lemma_no_pruning_sound<S: StateSpace>(policy: &NoPruning, space: &S, grid: &GridModel)
    ensures
        prune_sound_for(policy, space, grid),
{
}

/// Discards every entry whose tentative cost has reached `ceiling`. Sound
/// for problems whose goal traces provably stay below the ceiling at every
/// step: `budget_space::lemma_cost_ceiling_sound` proves it for a budget
/// space whose every delta drains the counter, where no trace's cumulative
/// cost can exceed the starting budget.
pub struct CostCeiling {
    pub ceiling: u64,
}

impl PruningPolicy for CostCeiling {
    open spec fn discards(&self, s: int, c: int) -> bool {
        c >= self.ceiling
    }

    fn should_discard(&self, s: usize, c: u64) -> (r: bool) {
        c >= self.ceiling
    }
}

} // verus!
