use vstd::prelude::*;

use crate::driver::distance_map_ok;
use crate::driver::dv;
use crate::driver::find_first_post;
use crate::driver::SearchDriver;
use crate::driver::overflow_report;
use crate::errors::SearchError;
use crate::grid_model::GridModel;
use crate::paths::cost_width_ok;
use crate::paths::is_optimal_cost_to;
use crate::paths::is_optimal_goal_cost;
use crate::space::StateSpace;

verus! {

/// The sum of a sequence of costs.
pub open spec fn sum_seq(s: Seq<int>) -> int
    decreases s.len(),
{
    if s.len() == 0 {
        0
    } else {
        sum_seq(s.drop_last()) + s.last()
    }
}

/// What `Aggregator::max_over_goals` promises: an `Ok` answer is the
/// largest of the optimal costs of the targets (0 when there are none),
/// `UnreachableGoal` names a target no trace reaches, and `CostOverflow`
/// certifies that the cost width is too narrow for the problem.
pub open spec fn max_goals_post<S: StateSpace>(
    space: &S,
    grid: &GridModel,
    targets: Seq<usize>,
    r: Result<u64, SearchError>,
) -> bool {
    match r {
        Ok(t) => exists|cs: Seq<int>|
            {
                &&& #[trigger] cs.len() == targets.len()
                &&& (forall|j: int|
                    0 <= j < cs.len() ==> is_optimal_cost_to(
                        space,
                        grid,
                        (#[trigger] targets[j]) as int,
                        cs[j],
                    ))
                &&& (forall|j: int| 0 <= j < cs.len() ==> #[trigger] cs[j] <= t as int)
                &&& (targets.len() == 0 ==> t == 0)
                &&& (targets.len() > 0 ==> exists|j: int|
                    0 <= j < cs.len() && #[trigger] cs[j] == t as int)
            },
        Err(SearchError::UnreachableGoal) => exists|j: int|
            0 <= j < targets.len() && (forall|c: int|
                !crate::paths::reaches(space, grid, (#[trigger] targets[j]) as int, c)),
        Err(SearchError::CostOverflow) => overflow_report(space, grid),
        Err(SearchError::MalformedGrid) => false,
    }
}

/// What `Aggregator::sum_over_goals` promises: an `Ok` answer is the sum
/// of the optimal costs of the targets, `UnreachableGoal` names a target
/// no trace reaches, and `CostOverflow` certifies either a cost width too
/// narrow for the problem or a distance total beyond the cost word.
pub open spec fn sum_goals_post<S: StateSpace>(
    space: &S,
    grid: &GridModel,
    targets: Seq<usize>,
    r: Result<u64, SearchError>,
) -> bool {
    match r {
        Ok(t) => exists|cs: Seq<int>|
            {
                &&& #[trigger] cs.len() == targets.len()
                &&& (forall|j: int|
                    0 <= j < cs.len() ==> is_optimal_cost_to(
                        space,
                        grid,
                        (#[trigger] targets[j]) as int,
                        cs[j],
                    ))
                &&& t as int == sum_seq(cs)
            },
        Err(SearchError::UnreachableGoal) => exists|j: int|
            0 <= j < targets.len() && (forall|c: int|
                !crate::paths::reaches(space, grid, (#[trigger] targets[j]) as int, c)),
        Err(SearchError::CostOverflow) => overflow_report(space, grid) || (exists|cs: Seq<int>|
            {
                &&& #[trigger] cs.len() <= targets.len()
                &&& (forall|j: int|
                    0 <= j < cs.len() ==> is_optimal_cost_to(
                        space,
                        grid,
                        (#[trigger] targets[j]) as int,
                        cs[j],
                    ))
                &&& sum_seq(cs) > u64::MAX
            }),
        Err(SearchError::MalformedGrid) => false,
    }
}

/// Composition policies over one or more search runs. Each run owns its
/// frontier and distance map exclusively; the runs share nothing mutable,
/// so their order cannot affect the reduced result.
pub struct Aggregator;

impl Aggregator {
    /// One `FindFirstGoal` run whose cost is doubled, as for a path that
    /// must be walked there and back.
    pub fn round_trip<S: StateSpace>(space: &S, grid: &GridModel) -> (r: Result<u64, SearchError>)
        requires
            space.inv(),
            grid.wf(),
            space.fits(grid),
        ensures
            match r {
                Ok(t) => exists|c: int|
                    is_optimal_goal_cost(space, grid, c) && t as int == 2 * c,
                Err(SearchError::UnreachableGoal) => !crate::paths::goal_reachable(space, grid),
                Err(SearchError::CostOverflow) => !cost_width_ok(space, grid) || (exists|c: int|
                    is_optimal_goal_cost(space, grid, c) && 2 * c > u64::MAX),
                Err(SearchError::MalformedGrid) => false,
            },
    {
        match SearchDriver::find_first_goal(space, grid) {
            Ok(c) => {
                match c.checked_mul(2) {
                    Some(t) => {
                        proof {
                            assert(is_optimal_goal_cost(space, grid, c as int) && t as int == 2 * (
                            c as int));
                        }
                        Ok(t)
                    },
                    None => {
                        proof {
                            assert(is_optimal_goal_cost(space, grid, c as int) && 2 * (c as int)
                                > u64::MAX);
                        }
                        Err(SearchError::CostOverflow)
                    },
                }
            },
            Err(e) => Err(e),
        }
    }

    /// Runs `FindFirstGoal` independently once per candidate state space
    /// and reduces the costs with `min`. The runs are independent, so any
    /// execution order gives the same result; the first failure is
    /// propagated.
    pub fn min_over_sources<S: StateSpace>(spaces: &Vec<S>, grid: &GridModel) -> (r: Result<
        u64,
        SearchError,
    >)
        requires
            grid.wf(),
            spaces@.len() > 0,
            forall|i: int|
                0 <= i < spaces@.len() ==> (#[trigger] spaces@[i]).inv() && spaces@[i].fits(grid),
        ensures
            match r {
                Ok(m) => exists|cs: Seq<int>|
                    {
                        &&& #[trigger] cs.len() == spaces@.len()
                        &&& (forall|i: int|
                            0 <= i < cs.len() ==> is_optimal_goal_cost(
                                &(#[trigger] spaces@[i]),
                                grid,
                                cs[i],
                            ))
                        &&& (forall|i: int| 0 <= i < cs.len() ==> m as int <= #[trigger] cs[i])
                        &&& (exists|i: int| 0 <= i < cs.len() && m as int == #[trigger] cs[i])
                    },
                Err(e) => exists|i: int|
                    0 <= i < spaces@.len() && find_first_post(&(#[trigger] spaces@[i]), grid, Err(e)),
            },
    {
        let mut m: u64 = match SearchDriver::find_first_goal(&spaces[0], grid) {
            Ok(c) => c,
            Err(e) => {
                return Err(e);
            },
        };
        let ghost mut costs: Seq<int> = seq![m as int];
        proof {
            assert(is_optimal_goal_cost(&spaces@[0], grid, m as int));
            assert(costs[0] == m as int);
        }
        let mut i: usize = 1;
        while i < spaces.len()
            invariant
                grid.wf(),
                1 <= i <= spaces@.len(),
                forall|j: int|
                    0 <= j < spaces@.len() ==> (#[trigger] spaces@[j]).inv() && spaces@[j].fits(
                        grid,
                    ),
                costs.len() == i,
                forall|j: int|
                    0 <= j < i ==> is_optimal_goal_cost(&(#[trigger] spaces@[j]), grid, costs[j]),
                forall|j: int| 0 <= j < i ==> m as int <= #[trigger] costs[j],
                exists|j: int| 0 <= j < i && m as int == #[trigger] costs[j],
            decreases spaces@.len() - i,
        {
            let ghost m0 = m;
            let ghost costs0 = costs;
            match SearchDriver::find_first_goal(&spaces[i], grid) {
                Ok(c) => {
                    proof {
                        assert(is_optimal_goal_cost(&spaces@[i as int], grid, c as int));
                        costs = costs.push(c as int);
                    }
                    if c < m {
                        m = c;
                        proof {
                            assert(costs[i as int] == c as int);
                        }
                    } else {
                        proof {
                            let k = choose|k: int| 0 <= k < i && m0 as int == #[trigger] costs0[k];
                            assert(costs[k] == costs0[k]);
                        }
                    }
                },
                Err(e) => {
                    return Err(e);
                },
            }
            i += 1;
        }
        proof {
            assert(costs.len() == spaces@.len());
        }
        Ok(m)
    }

    /// One `FullDistanceMap` run, then the sum of the recorded distances to
    /// a fixed set of target states. The result satisfies `sum_goals_post`.
    pub fn sum_over_goals<S: StateSpace>(
        space: &S,
        grid: &GridModel,
        targets: &Vec<usize>,
    ) -> (r: Result<u64, SearchError>)
        requires
            space.inv(),
            grid.wf(),
            space.fits(grid),
            forall|j: int| 0 <= j < targets@.len() ==> (#[trigger] targets@[j]) < space.n_spec(),
        ensures
            sum_goals_post(space, grid, targets@, r),
    {
        let dm = match SearchDriver::full_distance_map(space, grid) {
            Ok(dm) => dm,
            Err(e) => {
                return Err(e);
            },
        };
        let mut total: u64 = 0;
        let ghost mut cs: Seq<int> = Seq::empty();
        let mut j: usize = 0;
        while j < targets.len()
            invariant
                space.inv(),
                grid.wf(),
                space.fits(grid),
                forall|k: int| 0 <= k < targets@.len() ==> (#[trigger] targets@[k]) < space.n_spec(),
                distance_map_ok(space, grid, dm@),
                0 <= j <= targets@.len(),
                cs.len() == j,
                forall|k: int|
                    0 <= k < j ==> is_optimal_cost_to(
                        space,
                        grid,
                        (#[trigger] targets@[k]) as int,
                        cs[k],
                    ),
                total as int == sum_seq(cs),
            decreases targets@.len() - j,
        {
            let t = targets[j];
            match dm[t] {
                Some(d) => {
                    proof {
                        assert(dm@[t as int] is Some);
                        assert(is_optimal_cost_to(space, grid, t as int, dv(dm@[t as int])));
                        assert(dv(dm@[t as int]) == d as int);
                    }
                    match total.checked_add(d) {
                        Some(nt) => {
                            proof {
                                let cs0 = cs;
                                cs = cs.push(d as int);
                                assert(cs.drop_last() =~= cs0);
                                assert(sum_seq(cs) == sum_seq(cs0) + d as int);
                            }
                            total = nt;
                        },
                        None => {
                            proof {
                                let cs0 = cs;
                                cs = cs.push(d as int);
                                assert(cs.drop_last() =~= cs0);
                                assert(sum_seq(cs) == sum_seq(cs0) + d as int);
                                assert(sum_seq(cs) > u64::MAX);
                            }
                            return Err(SearchError::CostOverflow);
                        },
                    }
                },
                None => {
                    proof {
                        assert(dm@[t as int] is None);
                    }
                    return Err(SearchError::UnreachableGoal);
                },
            }
            j += 1;
        }
        Ok(total)
    }

    /// One `FullDistanceMap` run, then the largest recorded distance to a
    /// fixed set of target states: the time until all targets are reached
    /// when every edge costs one time unit. The result satisfies
    /// `max_goals_post`.
    pub fn max_over_goals<S: StateSpace>(
        space: &S,
        grid: &GridModel,
        targets: &Vec<usize>,
    ) -> (r: Result<u64, SearchError>)
        requires
            space.inv(),
            grid.wf(),
            space.fits(grid),
            forall|j: int| 0 <= j < targets@.len() ==> (#[trigger] targets@[j]) < space.n_spec(),
        ensures
            max_goals_post(space, grid, targets@, r),
    {
        let dm = match SearchDriver::full_distance_map(space, grid) {
            Ok(dm) => dm,
            Err(e) => {
                return Err(e);
            },
        };
        let mut best: u64 = 0;
        let ghost mut cs: Seq<int> = Seq::empty();
        let mut j: usize = 0;
        while j < targets.len()
            invariant
                space.inv(),
                grid.wf(),
                space.fits(grid),
                forall|k: int| 0 <= k < targets@.len() ==> (#[trigger] targets@[k]) < space.n_spec(),
                distance_map_ok(space, grid, dm@),
                0 <= j <= targets@.len(),
                cs.len() == j,
                forall|k: int|
                    0 <= k < j ==> is_optimal_cost_to(
                        space,
                        grid,
                        (#[trigger] targets@[k]) as int,
                        cs[k],
                    ),
                forall|k: int| 0 <= k < j ==> #[trigger] cs[k] <= best as int,
                j == 0 ==> best == 0,
                j > 0 ==> exists|k: int| 0 <= k < j && #[trigger] cs[k] == best as int,
            decreases targets@.len() - j,
        {
            let t = targets[j];
            let ghost best0 = best;
            match dm[t] {
                Some(d) => {
                    let ghost cs0 = cs;
                    proof {
                        assert(dm@[t as int] is Some);
                        assert(is_optimal_cost_to(space, grid, t as int, dv(dm@[t as int])));
                        assert(dv(dm@[t as int]) == d as int);
                        cs = cs.push(d as int);
                    }
                    if j == 0 || d > best {
                        best = d;
                        proof {
                            assert(cs[j as int] == d as int);
                        }
                    } else {
                        proof {
                            let k = choose|k: int| 0 <= k < j && #[trigger] cs0[k] == best0 as int;
                            assert(cs[k] == cs0[k]);
                            assert(cs[k] == best as int);
                        }
                    }
                },
                None => {
                    proof {
                        assert(dm@[t as int] is None);
                    }
                    return Err(SearchError::UnreachableGoal);
                },
            }
            j += 1;
        }
        Ok(best)
    }
}

} // verus!
