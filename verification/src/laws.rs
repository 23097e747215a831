use vstd::prelude::*;

use crate::driver::find_first_post;
use crate::errors::SearchError;
use crate::grid_model::GridModel;
use crate::paths::cost_width_ok;
use crate::paths::goal_reachable;
use crate::paths::goal_trace;
use crate::paths::is_optimal_goal_cost;
use crate::paths::lemma_optimal_goal_cost_unique;
use crate::paths::lemma_trace_extend;
use crate::paths::lemma_trace_prefix;
use crate::paths::step_ok;
use crate::paths::valid_trace;
use crate::prune::prune_sound_for;
use crate::prune::PruningPolicy;
use crate::space::StateSpace;

verus! {

/// Idempotence: the contract of `SearchDriver::find_first_goal` pins its
/// result completely, so repeated invocation on an identical (grid, state
/// space) pair yields an identical answer every time, whenever the cost
/// width fits the problem: the worst starting cost plus one maximal edge
/// per state stays within the cost word, which any bounded-cost grid
/// satisfies.
pub proof fn lemma_search_idempotent<S: StateSpace>(
    space: &S,
    grid: &GridModel,
    r1: Result<u64, SearchError>,
    r2: Result<u64, SearchError>,
)
    requires
        find_first_post(space, grid, r1),
        find_first_post(space, grid, r2),
        cost_width_ok(space, grid),
    ensures
        r1 == r2,
{
    match r1 {
        Ok(c1) => {
            let tr = choose|tr: Seq<(int, int)>| goal_trace(space, grid, tr) && tr.last().1
                == c1 as int;
            assert(goal_reachable(space, grid));
            match r2 {
                Ok(c2) => {
                    lemma_optimal_goal_cost_unique(space, grid, c1 as int, c2 as int);
                },
                Err(e) => {
                    assert(e != SearchError::UnreachableGoal);
                    assert(false);
                },
            }
        },
        Err(e1) => {
            assert(e1 == SearchError::UnreachableGoal);
            match r2 {
                Ok(c2) => {
                    let tr = choose|tr: Seq<(int, int)>| goal_trace(space, grid, tr) && tr.last().1
                        == c2 as int;
                    assert(goal_reachable(space, grid));
                    assert(false);
                },
                Err(e2) => {
                    assert(e2 == SearchError::UnreachableGoal);
                },
            }
        },
    }
}

/// Pruning equivalence: a sound pruning policy changes only how much of
/// the state space is explored, never the answer. The pruned and the
/// unpruned search promise the same policy-independent contract, so on
/// any input whose cost width fits the problem their results are equal.
pub proof fn lemma_pruning_equivalence<S: StateSpace, P: PruningPolicy>(
    space: &S,
    grid: &GridModel,
    policy: &P,
    unpruned: Result<u64, SearchError>,
    pruned: Result<u64, SearchError>,
)
    requires
        prune_sound_for(policy, space, grid),
        find_first_post(space, grid, unpruned),
        find_first_post(space, grid, pruned),
        cost_width_ok(space, grid),
    ensures
        unpruned == pruned,
{
    lemma_search_idempotent(space, grid, unpruned, pruned);
}

/// Trace `mirror` follows the same states as `tr`, is valid in space `lo`,
/// and never accumulates more cost.
pub open spec fn dominated_trace<S1: StateSpace>(
    lo: &S1,
    grid: &GridModel,
    mirror: Seq<(int, int)>,
    tr: Seq<(int, int)>,
) -> bool {
    &&& valid_trace(lo, grid, mirror)
    &&& mirror.len() == tr.len()
    &&& forall|i: int|
        0 <= i < tr.len() ==> (#[trigger] mirror[i]).0 == tr[i].0 && mirror[i].1 <= tr[i].1
}

/// Every edge of `hi` is matched in `lo` by an edge between the same
/// states that costs no more.
pub open spec fn edges_dominated<S1: StateSpace, S2: StateSpace>(
    lo: &S1,
    hi: &S2,
    grid: &GridModel,
) -> bool {
    forall|s: int, j: int|
        0 <= j < hi.edges_spec(grid, s).len() ==> exists|j2: int|
            0 <= j2 < lo.edges_spec(grid, s).len() && (#[trigger] lo.edges_spec(grid, s)[j2]).0 == (
            #[trigger] hi.edges_spec(grid, s)[j]).0 && lo.edges_spec(grid, s)[j2].1
                <= hi.edges_spec(grid, s)[j].1
}

/// Every trace of `hi` is mirrored in `lo` at no greater cost.
proof fn lemma_dominated_trace<S1: StateSpace, S2: StateSpace>(
    lo: &S1,
    hi: &S2,
    grid: &GridModel,
    tr: Seq<(int, int)>,
)
    requires
        lo.init_spec(grid) == hi.init_spec(grid),
        edges_dominated(lo, hi, grid),
        valid_trace(hi, grid, tr),
    ensures
        exists|mirror: Seq<(int, int)>| #[trigger] dominated_trace(lo, grid, mirror, tr),
    decreases tr.len(),
{
    if tr.len() == 1 {
        let mirror = seq![tr[0]];
        assert(lo.init_spec(grid).contains(mirror[0]));
        assert(valid_trace(lo, grid, mirror));
        assert(dominated_trace(lo, grid, mirror, tr));
    } else {
        let pre = tr.subrange(0, tr.len() - 1);
        lemma_trace_prefix(hi, grid, tr, tr.len() - 1);
        lemma_dominated_trace(lo, hi, grid, pre);
        let pm = choose|pm: Seq<(int, int)>| #[trigger] dominated_trace(lo, grid, pm, pre);
        let a = tr[tr.len() - 2];
        let last = tr.len() - 1;
        assert(0 < last < tr.len());
        assert(step_ok(hi, grid, tr[last - 1], tr[last]));
        assert(step_ok(hi, grid, tr[tr.len() - 2], tr[tr.len() - 1]));
        let j = choose|j: int|
            0 <= j < hi.edges_spec(grid, a.0).len() && (#[trigger] hi.edges_spec(grid, a.0)[j]).0
                == tr[tr.len() - 1].0 && tr[tr.len() - 1].1 == a.1 + hi.edges_spec(grid, a.0)[j].1;
        let j2 = choose|j2: int|
            0 <= j2 < lo.edges_spec(grid, a.0).len() && (#[trigger] lo.edges_spec(grid, a.0)[j2]).0
                == hi.edges_spec(grid, a.0)[j].0 && lo.edges_spec(grid, a.0)[j2].1 <= hi.edges_spec(
                grid,
                a.0,
            )[j].1;
        let w_lo = lo.edges_spec(grid, a.0)[j2].1;
        let b = (tr[tr.len() - 1].0, pm.last().1 + w_lo);
        assert(pm.last() == pm[tr.len() - 2] && pre[tr.len() - 2] == tr[tr.len() - 2]);
        assert(pm.last().0 == a.0);
        assert(lo.edges_spec(grid, pm.last().0)[j2] == lo.edges_spec(grid, a.0)[j2]);
        assert(step_ok(lo, grid, pm.last(), b));
        lemma_trace_extend(lo, grid, pm, b);
        let mirror = pm.push(b);
        assert forall|i: int| 0 <= i < tr.len() implies (#[trigger] mirror[i]).0 == tr[i].0
            && mirror[i].1 <= tr[i].1 by {
            if i < tr.len() - 1 {
                assert(mirror[i] == pm[i]);
                assert(pre[i] == tr[i]);
            } else {
                assert(mirror[i] == b);
                assert(b.1 == pm.last().1 + w_lo);
                assert(pm.last().1 <= pre[tr.len() - 2].1);
                assert(b.1 <= tr[tr.len() - 2].1 + hi.edges_spec(grid, a.0)[j].1);
            }
        }
        assert(dominated_trace(lo, grid, mirror, tr));
    }
}

/// Monotonicity: increasing edge costs never decreases the optimal goal
/// cost. Space `hi` shares the initial states and the goal predicate of
/// `lo`, and each of its edges is matched in `lo` by an edge between the
/// same states that costs no more — for instance, `lo` with a single edge
/// cost increased. Then the optimal goal cost of `hi` is at least that of
/// `lo`.
pub proof fn lemma_cost_monotonicity<S1: StateSpace, S2: StateSpace>(
    lo: &S1,
    hi: &S2,
    grid: &GridModel,
    c_lo: int,
    c_hi: int,
)
    requires
        lo.init_spec(grid) == hi.init_spec(grid),
        forall|s: int| #[trigger] lo.goal_spec(grid, s) == hi.goal_spec(grid, s),
        edges_dominated(lo, hi, grid),
        is_optimal_goal_cost(lo, grid, c_lo),
        is_optimal_goal_cost(hi, grid, c_hi),
    ensures
        c_lo <= c_hi,
{
    let tr = choose|tr: Seq<(int, int)>| goal_trace(hi, grid, tr) && tr.last().1 == c_hi;
    lemma_dominated_trace(lo, hi, grid, tr);
    let mirror = choose|mirror: Seq<(int, int)>| #[trigger] dominated_trace(lo, grid, mirror, tr);
    assert(mirror[tr.len() - 1].0 == tr[tr.len() - 1].0);
    assert(lo.goal_spec(grid, mirror.last().0) == hi.goal_spec(grid, tr.last().0));
    assert(goal_trace(lo, grid, mirror));
    assert(c_lo <= mirror.last().1);
    assert(mirror.last().1 <= tr.last().1);
}

} // verus!
