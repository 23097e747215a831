use vstd::prelude::*;

use crate::errors::SearchError;
use crate::frontier::entry_le;
use crate::frontier::frontier_entries;
use crate::frontier::Frontier;
use crate::grid_model::GridModel;
use crate::paths::cost_width_ok;
use crate::paths::edge_cost_max;
use crate::paths::goal_reachable;
use crate::paths::goal_trace;
use crate::paths::is_optimal_cost_to;
use crate::paths::init_cost_max;
use crate::paths::is_optimal_goal_cost;
use crate::paths::lemma_edge_cost_max;
use crate::paths::lemma_init_cost_max;
use crate::paths::lemma_reaches_init;
use crate::paths::lemma_reaches_step;
use crate::paths::lemma_trace_cost_mono;
use crate::paths::lemma_trace_wf;
use crate::paths::reaches;
use crate::paths::step_ok;
use crate::paths::valid_trace;
use crate::prune::lemma_no_pruning_sound;
use crate::prune::prune_sound_for;
use crate::prune::NoPruning;
use crate::prune::PruningPolicy;
use crate::space::pairs_view;
use crate::space::StateSpace;

verus! {

broadcast use vstd::set::group_set_axioms;

/// The cost held in a `Some` distance entry.
pub open spec fn dv(o: Option<u64>) -> int {
    o->Some_0 as int
}

/// How many states a distance map has finalized.
pub closed spec fn count_done(dist: Seq<Option<u64>>) -> int
    decreases dist.len(),
{
    if dist.len() <= 0 {
        0
    } else {
        count_done(dist.drop_last()) + if dist.last() is Some {
            1int
        } else {
            0int
        }
    }
}

proof fn lemma_count_done_bounds(dist: Seq<Option<u64>>)
    ensures
        0 <= count_done(dist) <= dist.len(),
    decreases dist.len(),
{
    if dist.len() > 0 {
        lemma_count_done_bounds(dist.drop_last());
    }
}

proof fn lemma_count_done_lt(dist: Seq<Option<u64>>, i: int)
    requires
        0 <= i < dist.len(),
        dist[i] is None,
    ensures
        count_done(dist) < dist.len(),
    decreases dist.len(),
{
    if i == dist.len() - 1 {
        lemma_count_done_bounds(dist.drop_last());
    } else {
        lemma_count_done_lt(dist.drop_last(), i);
    }
}

proof fn lemma_count_done_update(dist: Seq<Option<u64>>, i: int, c: u64)
    requires
        0 <= i < dist.len(),
        dist[i] is None,
    ensures
        count_done(dist.update(i, Some(c))) == count_done(dist) + 1,
    decreases dist.len(),
{
    let upd = dist.update(i, Some(c));
    if i == dist.len() - 1 {
        assert(upd.drop_last() =~= dist.drop_last());
        assert(upd.last() is Some);
    } else {
        assert(upd.drop_last() =~= dist.drop_last().update(i, Some(c)));
        lemma_count_done_update(dist.drop_last(), i, c);
        assert(upd.last() == dist.last());
    }
}

/// Entry or excuse: either the frontier holds an entry for state `v` at
/// cost at most `bound`, or the policy discards (v, c) for some c <= bound,
/// in which case soundness says no goal trace passes there anyway.
spec fn covered<P: PruningPolicy>(fs: Set<(u64, usize)>, policy: &P, v: int, bound: int) -> bool {
    ||| exists|e: (u64, usize)| #[trigger] fs.contains(e) && e.1 as int == v && e.0 as int <= bound
    ||| exists|c: int| 0 <= c <= bound && #[trigger] policy.discards(v, c)
}

proof fn lemma_covered_weaken<P: PruningPolicy>(
    fs: Set<(u64, usize)>,
    policy: &P,
    v: int,
    b1: int,
    b2: int,
)
    requires
        covered(fs, policy, v, b1),
        b1 <= b2,
    ensures
        covered(fs, policy, v, b2),
{
}

proof fn lemma_covered_insert<P: PruningPolicy>(
    fs: Set<(u64, usize)>,
    x: (u64, usize),
    policy: &P,
    v: int,
    bound: int,
)
    requires
        covered(fs, policy, v, bound),
    ensures
        covered(fs.insert(x), policy, v, bound),
{
    if exists|e: (u64, usize)| #[trigger] fs.contains(e) && e.1 as int == v && e.0 as int <= bound {
        let e = choose|e: (u64, usize)| #[trigger] fs.contains(e) && e.1 as int == v && e.0 as int
            <= bound;
        assert(fs.insert(x).contains(e));
    }
}

/// Removing an entry keeps every state covered, provided the removed entry
/// either names another state or was itself discarded by the policy.
proof fn lemma_covered_remove<P: PruningPolicy>(
    fs: Set<(u64, usize)>,
    x: (u64, usize),
    policy: &P,
    v: int,
    bound: int,
)
    requires
        covered(fs, policy, v, bound),
        x.1 as int != v || policy.discards(x.1 as int, x.0 as int),
    ensures
        covered(fs.remove(x), policy, v, bound),
{
    if exists|e: (u64, usize)| #[trigger] fs.contains(e) && e.1 as int == v && e.0 as int <= bound {
        let e = choose|e: (u64, usize)| #[trigger] fs.contains(e) && e.1 as int == v && e.0 as int
            <= bound;
        if e == x {
            assert(v == x.1 as int);
            assert(policy.discards(v, x.0 as int));
            assert(0 <= x.0 as int <= bound);
        } else {
            assert(fs.remove(x).contains(e));
        }
    }
}

/// Every frontier entry names an encoded state that its cost really reaches.
spec fn inv_entries<S: StateSpace>(space: &S, grid: &GridModel, fs: Set<(u64, usize)>) -> bool {
    forall|e: (u64, usize)| #[trigger]
        fs.contains(e) ==> (e.1 as int) < space.n_spec() && reaches(
            space,
            grid,
            e.1 as int,
            e.0 as int,
        )
}

/// Every finalized cost is really reached.
spec fn inv_done_reach<S: StateSpace>(space: &S, grid: &GridModel, dist: Seq<Option<u64>>) -> bool {
    forall|s: int|
        0 <= s < dist.len() && (#[trigger] dist[s]) is Some ==> reaches(space, grid, s, dv(dist[s]))
}

/// Where a goal trace visits a finalized state, the finalized cost is no
/// worse than the visit's cumulative cost.
spec fn inv_done_goal_opt<S: StateSpace>(
    space: &S,
    grid: &GridModel,
    dist: Seq<Option<u64>>,
) -> bool {
    forall|tr: Seq<(int, int)>, k: int|
        #![trigger goal_trace(space, grid, tr), tr[k]]
        goal_trace(space, grid, tr) && 0 <= k < tr.len() && 0 <= tr[k].0 < dist.len() && dist[tr[k].0]
            is Some ==> dv(dist[tr[k].0]) <= tr[k].1
}

/// Same, for every valid trace; the unpruned full-map search maintains it.
spec fn inv_done_opt_all<S: StateSpace>(
    space: &S,
    grid: &GridModel,
    dist: Seq<Option<u64>>,
) -> bool {
    forall|tr: Seq<(int, int)>, k: int|
        #![trigger valid_trace(space, grid, tr), tr[k]]
        valid_trace(space, grid, tr) && 0 <= k < tr.len() && 0 <= tr[k].0 < dist.len()
            && dist[tr[k].0] is Some ==> dv(dist[tr[k].0]) <= tr[k].1
}

/// Every edge out of a finalized state leads to a state that is finalized
/// itself or still covered at the relaxed cost.
spec fn inv_edges_cov<S: StateSpace, P: PruningPolicy>(
    space: &S,
    grid: &GridModel,
    policy: &P,
    fs: Set<(u64, usize)>,
    dist: Seq<Option<u64>>,
) -> bool {
    forall|u: int, j: int|
        0 <= u < dist.len() && dist[u] is Some && 0 <= j < space.edges_spec(grid, u).len() ==> {
            let v = (#[trigger] space.edges_spec(grid, u)[j]).0;
            let w = space.edges_spec(grid, u)[j].1;
            (0 <= v < dist.len() && dist[v] is Some) || covered(fs, policy, v, dv(dist[u]) + w)
        }
}

/// Every initial state is finalized or still covered at its starting cost.
spec fn inv_init_cov<S: StateSpace, P: PruningPolicy>(
    space: &S,
    grid: &GridModel,
    policy: &P,
    fs: Set<(u64, usize)>,
    dist: Seq<Option<u64>>,
) -> bool {
    forall|k: int|
        0 <= k < space.init_spec(grid).len() ==> {
            let s0 = (#[trigger] space.init_spec(grid)[k]).0;
            let c0 = space.init_spec(grid)[k].1;
            (0 <= s0 < dist.len() && dist[s0] is Some) || covered(fs, policy, s0, c0)
        }
}

/// A best-known tentative cost for an unfinalized state is itself covered.
spec fn inv_best<P: PruningPolicy>(
    policy: &P,
    fs: Set<(u64, usize)>,
    dist: Seq<Option<u64>>,
    best: Seq<Option<u64>>,
) -> bool {
    forall|v: int|
        0 <= v < dist.len() && dist[v] is None && (#[trigger] best[v]) is Some ==> covered(
            fs,
            policy,
            v,
            dv(best[v]),
        )
}

/// In first-goal mode no goal state is ever finalized: the search returns
/// instead.
spec fn inv_no_goal_done<S: StateSpace>(
    space: &S,
    grid: &GridModel,
    dist: Seq<Option<u64>>,
) -> bool {
    forall|s: int|
        0 <= s < dist.len() && (#[trigger] dist[s]) is Some ==> !space.goal_spec(grid, s)
}

/// Wherever a goal trace visits an unfinalized state, the frontier still
/// holds an entry at or below the visit's cumulative cost.
proof fn lemma_goal_witness<S: StateSpace, P: PruningPolicy>(
    space: &S,
    grid: &GridModel,
    policy: &P,
    fs: Set<(u64, usize)>,
    dist: Seq<Option<u64>>,
    tr: Seq<(int, int)>,
    k: int,
)
    requires
        space.inv(),
        grid.wf(),
        space.fits(grid),
        prune_sound_for(policy, space, grid),
        dist.len() == space.n_spec(),
        inv_done_goal_opt(space, grid, dist),
        inv_edges_cov(space, grid, policy, fs, dist),
        inv_init_cov(space, grid, policy, fs, dist),
        goal_trace(space, grid, tr),
        0 <= k < tr.len(),
        dist[tr[k].0] is None,
    ensures
        exists|e: (u64, usize)| #[trigger] fs.contains(e) && e.0 as int <= tr[k].1,
    decreases k,
{
    lemma_trace_wf(space, grid, tr);
    if k > 0 && dist[tr[k - 1].0] is None {
        lemma_goal_witness(space, grid, policy, fs, dist, tr, k - 1);
        lemma_trace_cost_mono(space, grid, tr, k - 1, k);
        let e = choose|e: (u64, usize)| #[trigger] fs.contains(e) && e.0 as int <= tr[k - 1].1;
        assert(fs.contains(e) && e.0 as int <= tr[k].1);
    } else if k == 0 {
        let kk = choose|kk: int|
            0 <= kk < space.init_spec(grid).len() && space.init_spec(grid)[kk] == tr[0];
        let s0 = space.init_spec(grid)[kk].0;
        let c0 = space.init_spec(grid)[kk].1;
        assert(s0 == tr[0].0 && c0 == tr[0].1);
        assert((0 <= s0 < dist.len() && dist[s0] is Some) || covered(fs, policy, s0, c0));
        assert(covered(fs, policy, tr[0].0, tr[0].1));
        if exists|c: int| 0 <= c <= tr[0].1 && #[trigger] policy.discards(tr[0].0, c) {
            let c = choose|c: int| 0 <= c <= tr[0].1 && #[trigger] policy.discards(tr[0].0, c);
            assert(policy.discards(tr[0].0, c));
            assert(tr[0].1 < c);
            assert(false);
        }
    } else {
        let u = tr[k - 1].0;
        assert(dist[u] is Some);
        assert(dv(dist[u]) <= tr[k - 1].1);
        assert(step_ok(space, grid, tr[k - 1], tr[k]));
        let j = choose|j: int|
            0 <= j < space.edges_spec(grid, u).len() && (#[trigger] space.edges_spec(grid, u)[j]).0
                == tr[k].0 && tr[k].1 == tr[k - 1].1 + space.edges_spec(grid, u)[j].1;
        let w = space.edges_spec(grid, u)[j].1;
        assert((0 <= tr[k].0 < dist.len() && dist[tr[k].0] is Some) || covered(
            fs,
            policy,
            tr[k].0,
            dv(dist[u]) + w,
        ));
        assert(covered(fs, policy, tr[k].0, dv(dist[u]) + w));
        lemma_covered_weaken(fs, policy, tr[k].0, dv(dist[u]) + w, tr[k].1);
        if exists|c: int| 0 <= c <= tr[k].1 && #[trigger] policy.discards(tr[k].0, c) {
            let c = choose|c: int| 0 <= c <= tr[k].1 && #[trigger] policy.discards(tr[k].0, c);
            assert(policy.discards(tr[k].0, c));
            assert(tr[k].1 < c);
            assert(false);
        }
    }
}

/// Wherever a valid trace visits an unfinalized state, the frontier still
/// holds an entry at or below the visit's cumulative cost. This variant is
/// for the exhaustive (full-map) search, which never prunes.
proof fn lemma_valid_witness<S: StateSpace, P: PruningPolicy>(
    space: &S,
    grid: &GridModel,
    policy: &P,
    fs: Set<(u64, usize)>,
    dist: Seq<Option<u64>>,
    tr: Seq<(int, int)>,
    k: int,
)
    requires
        space.inv(),
        grid.wf(),
        space.fits(grid),
        forall|v: int, c: int| !(#[trigger] policy.discards(v, c)),
        dist.len() == space.n_spec(),
        inv_done_opt_all(space, grid, dist),
        inv_edges_cov(space, grid, policy, fs, dist),
        inv_init_cov(space, grid, policy, fs, dist),
        valid_trace(space, grid, tr),
        0 <= k < tr.len(),
        dist[tr[k].0] is None,
    ensures
        exists|e: (u64, usize)| #[trigger] fs.contains(e) && e.0 as int <= tr[k].1,
    decreases k,
{
    lemma_trace_wf(space, grid, tr);
    if k > 0 && dist[tr[k - 1].0] is None {
        lemma_valid_witness(space, grid, policy, fs, dist, tr, k - 1);
        lemma_trace_cost_mono(space, grid, tr, k - 1, k);
        let e = choose|e: (u64, usize)| #[trigger] fs.contains(e) && e.0 as int <= tr[k - 1].1;
        assert(fs.contains(e) && e.0 as int <= tr[k].1);
    } else if k == 0 {
        let kk = choose|kk: int|
            0 <= kk < space.init_spec(grid).len() && space.init_spec(grid)[kk] == tr[0];
        let s0 = space.init_spec(grid)[kk].0;
        let c0 = space.init_spec(grid)[kk].1;
        assert(s0 == tr[0].0 && c0 == tr[0].1);
        assert((0 <= s0 < dist.len() && dist[s0] is Some) || covered(fs, policy, s0, c0));
        assert(covered(fs, policy, tr[0].0, tr[0].1));
    } else {
        let u = tr[k - 1].0;
        assert(dist[u] is Some);
        assert(dv(dist[u]) <= tr[k - 1].1);
        assert(step_ok(space, grid, tr[k - 1], tr[k]));
        let j = choose|j: int|
            0 <= j < space.edges_spec(grid, u).len() && (#[trigger] space.edges_spec(grid, u)[j]).0
                == tr[k].0 && tr[k].1 == tr[k - 1].1 + space.edges_spec(grid, u)[j].1;
        let w = space.edges_spec(grid, u)[j].1;
        assert((0 <= tr[k].0 < dist.len() && dist[tr[k].0] is Some) || covered(
            fs,
            policy,
            tr[k].0,
            dv(dist[u]) + w,
        ));
        lemma_covered_weaken(fs, policy, tr[k].0, dv(dist[u]) + w, tr[k].1);
    }
}

/// Every frontier entry's cost stays under the running bound.
spec fn inv_entry_costs(fs: Set<(u64, usize)>, bound: int) -> bool {
    forall|e: (u64, usize)| #[trigger] fs.contains(e) ==> e.0 as int <= bound
}

/// Every finalized cost stays under the running bound.
spec fn inv_done_costs(dist: Seq<Option<u64>>, bound: int) -> bool {
    forall|s: int| 0 <= s < dist.len() && (#[trigger] dist[s]) is Some ==> dv(dist[s]) <= bound
}

/// What a full-map overflow report certifies: the cost width is too
/// narrow for this problem (spec'd as a starting cost plus one maximal
/// edge per state), and concretely some state's optimal cost plus one of
/// its outgoing edges exceeds the width.
pub open spec fn overflow_report<S: StateSpace>(space: &S, grid: &GridModel) -> bool {
    &&& !cost_width_ok(space, grid)
    &&& exists|s: int, c: int, j: int|
        #![trigger is_optimal_cost_to(space, grid, s, c), space.edges_spec(grid, s)[j]]
        is_optimal_cost_to(space, grid, s, c) && 0 <= j < space.edges_spec(grid, s).len() && c
            + space.edges_spec(grid, s)[j].1 > u64::MAX
}

/// What the full-map search promises of a returned distance map: a `Some`
/// entry is the optimal cost of reaching that state, and a `None` entry
/// means the state cannot be reached at all.
pub open spec fn distance_map_ok<S: StateSpace>(
    space: &S,
    grid: &GridModel,
    dm: Seq<Option<u64>>,
) -> bool {
    &&& dm.len() == space.n_spec()
    &&& forall|s: int|
        0 <= s < dm.len() && (#[trigger] dm[s]) is Some ==> is_optimal_cost_to(
            space,
            grid,
            s,
            dv(dm[s]),
        )
    &&& forall|s: int, c: int|
        0 <= s < dm.len() && dm[s] is None ==> !(#[trigger] reaches(space, grid, s, c))
}

/// What `full_distance_map` promises of its result.
pub open spec fn full_map_post<S: StateSpace>(
    space: &S,
    grid: &GridModel,
    r: Result<Vec<Option<u64>>, SearchError>,
) -> bool {
    match r {
        Ok(dm) => distance_map_ok(space, grid, dm@),
        Err(SearchError::CostOverflow) => overflow_report(space, grid),
        Err(_) => false,
    }
}

/// What `find_first_goal` promises of its result: an `Ok` cost is the
/// optimal goal cost, `UnreachableGoal` means no goal trace exists at
/// all, and `CostOverflow` certifies that the cost width is too narrow
/// for the problem (`cost_width_ok` fails), so on any width-respecting
/// input the search owes a definite answer.
pub open spec fn find_first_post<S: StateSpace>(
    space: &S,
    grid: &GridModel,
    r: Result<u64, SearchError>,
) -> bool {
    match r {
        Ok(c) => is_optimal_goal_cost(space, grid, c as int),
        Err(SearchError::UnreachableGoal) => !goal_reachable(space, grid),
        Err(SearchError::CostOverflow) => !cost_width_ok(space, grid),
        Err(SearchError::MalformedGrid) => false,
    }
}

/// A fresh all-`None` distance map.
fn vec_filled_none(n: usize) -> (r: Vec<Option<u64>>)
    ensures
        r@.len() == n,
        forall|i: int| 0 <= i < n ==> (#[trigger] r@[i]) is None,
{
    let mut v: Vec<Option<u64>> = Vec::new();
    let mut i: usize = 0;
    while i < n
        invariant
            0 <= i <= n,
            v@.len() == i,
            forall|k: int| 0 <= k < i ==> (#[trigger] v@[k]) is None,
        decreases n - i,
    {
        v.push(None);
        i += 1;
    }
    v
}

/// Whether a search stops at the first finalized goal state or runs to
/// frontier exhaustion and reports every distance.
#[derive(Clone, Copy, PartialEq, Eq, Structural)]
pub enum SearchMode {
    FindFirstGoal,
    FullDistanceMap,
}

/// What a search run produces: a single optimal cost, or the complete
/// distance map.
pub enum SearchOutcome {
    Cost(u64),
    DistanceMap(Vec<Option<u64>>),
}

/// The generic uniform-cost search loop.
pub struct SearchDriver;

impl SearchDriver {
    /// Seeds the frontier with every initial state at its starting cost,
    /// keeping only the best-known cost per state.
    fn seed_initial<S: StateSpace, P: PruningPolicy>(
        space: &S,
        grid: &GridModel,
        policy: &P,
        frontier: &mut Frontier,
        best: &mut Vec<Option<u64>>,
    )
        requires
            space.inv(),
            grid.wf(),
            space.fits(grid),
            frontier_entries(old(frontier)) == Set::<(u64, usize)>::empty(),
            frontier_entries(old(frontier)).finite(),
            old(best)@.len() == space.n_spec(),
            forall|s: int| 0 <= s < old(best)@.len() ==> (#[trigger] old(best)@[s]) is None,
        ensures
            final(best)@.len() == old(best)@.len(),
            frontier_entries(final(frontier)).finite(),
            inv_entries(space, grid, frontier_entries(final(frontier))),
            inv_entry_costs(frontier_entries(final(frontier)), init_cost_max(space, grid)),
            forall|kk: int|
                0 <= kk < space.init_spec(grid).len() ==> covered(
                    frontier_entries(final(frontier)),
                    policy,
                    (#[trigger] space.init_spec(grid)[kk]).0,
                    space.init_spec(grid)[kk].1,
                ),
            forall|v: int|
                0 <= v < final(best)@.len() && (#[trigger] final(best)@[v]) is Some ==> covered(
                    frontier_entries(final(frontier)),
                    policy,
                    v,
                    dv(final(best)@[v]),
                ),
    {
        proof {
            space.init_wf(grid);
        }
        let init = space.initial_states(grid);
        let mut k: usize = 0;
        while k < init.len()
            invariant
                space.inv(),
                grid.wf(),
                space.fits(grid),
                pairs_view(init@) == space.init_spec(grid),
                0 <= k <= init.len(),
                best@.len() == space.n_spec(),
                frontier_entries(&frontier).finite(),
                inv_entries(space, grid, frontier_entries(&frontier)),
                inv_entry_costs(frontier_entries(&frontier), init_cost_max(space, grid)),
                forall|v: int|
                    0 <= v < best@.len() && (#[trigger] best@[v]) is Some ==> covered(
                        frontier_entries(&frontier),
                        policy,
                        v,
                        dv(best@[v]),
                    ),
                forall|kk: int|
                    0 <= kk < k ==> covered(
                        frontier_entries(&frontier),
                        policy,
                        (#[trigger] space.init_spec(grid)[kk]).0,
                        space.init_spec(grid)[kk].1,
                    ),
            decreases init.len() - k,
        {
            let (s0, c0) = init[k];
            proof {
                space.init_wf(grid);
                assert(pairs_view(init@)[k as int] == space.init_spec(grid)[k as int]);
                assert(space.init_spec(grid)[k as int].0 == s0 as int);
                assert(space.init_spec(grid)[k as int].1 == c0 as int);
                assert((s0 as int) < space.n_spec());
            }
            let ghost f0 = frontier_entries(&frontier);
            let bv = best[s0];
            let improves: bool = match bv {
                None => true,
                Some(b) => c0 < b,
            };
            if improves {
                frontier.push(c0, s0);
                best[s0] = Some(c0);
                proof {
                    lemma_reaches_init(space, grid, k as int);
                    lemma_init_cost_max(space, grid, k as int);
                    assert(frontier_entries(&frontier) == f0.insert((c0, s0)));
                    assert forall|e: (u64, usize)| #[trigger]
                        frontier_entries(&frontier).contains(e) implies e.0 as int
                        <= init_cost_max(space, grid) by {
                        if e != (c0, s0) {
                            assert(f0.contains(e));
                        }
                    }
                    assert forall|e: (u64, usize)| #[trigger]
                        frontier_entries(&frontier).contains(e) implies (e.1 as int)
                        < space.n_spec() && reaches(space, grid, e.1 as int, e.0 as int) by {
                        if e != (c0, s0) {
                            assert(f0.contains(e));
                        }
                    }
                    assert forall|v: int|
                        0 <= v < best@.len() && (#[trigger] best@[v]) is Some implies covered(
                        frontier_entries(&frontier),
                        policy,
                        v,
                        dv(best@[v]),
                    ) by {
                        if v == s0 as int {
                            assert(frontier_entries(&frontier).contains((c0, s0)));
                        } else {
                            lemma_covered_insert(f0, (c0, s0), policy, v, dv(best@[v]));
                        }
                    }
                    assert forall|kk: int| 0 <= kk < k + 1 implies covered(
                        frontier_entries(&frontier),
                        policy,
                        (#[trigger] space.init_spec(grid)[kk]).0,
                        space.init_spec(grid)[kk].1,
                    ) by {
                        if kk < k {
                            lemma_covered_insert(
                                f0,
                                (c0, s0),
                                policy,
                                space.init_spec(grid)[kk].0,
                                space.init_spec(grid)[kk].1,
                            );
                        } else {
                            assert(frontier_entries(&frontier).contains((c0, s0)));
                        }
                    }
                }
            } else {
                proof {
                    assert(covered(f0, policy, s0 as int, dv(best@[s0 as int])));
                    lemma_covered_weaken(f0, policy, s0 as int, dv(best@[s0 as int]), c0 as int);
                    assert forall|kk: int| 0 <= kk < k + 1 implies covered(
                        frontier_entries(&frontier),
                        policy,
                        (#[trigger] space.init_spec(grid)[kk]).0,
                        space.init_spec(grid)[kk].1,
                    ) by {}
                }
            }
            k += 1;
        }
    }

    /// Uniform-cost search to the first finalized goal state, with a
    /// pruning policy, also reporting how many states were finalized.
    ///
    /// The search repeatedly extracts the least (cost, state) frontier
    /// entry, finalizes it unless it is stale or discarded by the policy,
    /// and relaxes its transitions. The first goal state finalized carries
    /// the optimal goal cost, because edge costs are non-negative.
    ///
    /// The second result is the exploration count: how many states this
    /// run finalized. Comparing the counts of a pruned and an unpruned run
    /// relates two executions, which a single run's contract cannot speak
    /// of; that comparison is validated by running both, as the pruning
    /// soundness requirement itself prescribes.
    pub fn find_first_goal_counted<S: StateSpace, P: PruningPolicy>(
        space: &S,
        grid: &GridModel,
        policy: &P,
    ) -> (r: (Result<u64, SearchError>, usize))
        requires
            space.inv(),
            grid.wf(),
            space.fits(grid),
            prune_sound_for(policy, space, grid),
        ensures
            find_first_post(space, grid, r.0),
            r.1 as int <= space.n_spec(),
    {
        let n = space.num_states(grid);
        let mut dist = vec_filled_none(n);
        let mut best = vec_filled_none(n);
        let mut frontier = Frontier::new();
        let mut visited: usize = 0;
        proof {
            space.init_wf(grid);
        }

        Self::seed_initial(space, grid, policy, &mut frontier, &mut best);

        proof {
            assert(count_done(dist@) == 0) by {
                lemma_count_done_bounds(dist@);
                if count_done(dist@) > 0 {
                    lemma_count_all_none(dist@);
                }
            }
            lemma_init_cost_max(space, grid, 0);
            lemma_edge_cost_max(space, grid, 0, 0);
            assert forall|e: (u64, usize)| #[trigger]
                frontier_entries(&frontier).contains(e) implies e.0 as int <= init_cost_max(
                space,
                grid,
            ) + count_done(dist@) * edge_cost_max(space, grid) by {}
        }

        loop
            invariant
                space.inv(),
                grid.wf(),
                space.fits(grid),
                prune_sound_for(policy, space, grid),
                n as int == space.n_spec(),
                dist@.len() == n,
                best@.len() == n,
                frontier_entries(&frontier).finite(),
                inv_entries(space, grid, frontier_entries(&frontier)),
                inv_done_reach(space, grid, dist@),
                inv_done_goal_opt(space, grid, dist@),
                inv_edges_cov(space, grid, policy, frontier_entries(&frontier), dist@),
                inv_init_cov(space, grid, policy, frontier_entries(&frontier), dist@),
                inv_best(policy, frontier_entries(&frontier), dist@, best@),
                inv_no_goal_done(space, grid, dist@),
                inv_entry_costs(
                    frontier_entries(&frontier),
                    init_cost_max(space, grid) + count_done(dist@) * edge_cost_max(space, grid),
                ),
                inv_done_costs(
                    dist@,
                    init_cost_max(space, grid) + count_done(dist@) * edge_cost_max(space, grid),
                ),
                visited as int == count_done(dist@),
            decreases n - count_done(dist@), frontier_entries(&frontier).len(),
        {
            proof {
                lemma_count_done_bounds(dist@);
            }
            let ghost f0 = frontier_entries(&frontier);
            let popped = frontier.pop();
            match popped {
                None => {
                    proof {
                        assert forall|tr: Seq<(int, int)>| !goal_trace(space, grid, tr) by {
                            if goal_trace(space, grid, tr) {
                                lemma_trace_wf(space, grid, tr);
                                let last = tr.len() - 1;
                                assert(!space.goal_spec(grid, tr[last].0) || dist@[tr[last].0]
                                    is None);
                                lemma_goal_witness(
                                    space,
                                    grid,
                                    policy,
                                    f0,
                                    dist@,
                                    tr,
                                    last,
                                );
                                let e = choose|e: (u64, usize)| #[trigger]
                                    f0.contains(e) && e.0 as int <= tr[last].1;
                                assert(false);
                            }
                        }
                        assert(!goal_reachable(space, grid));
                    }
                    return (Err(SearchError::UnreachableGoal), visited);
                },
                Some((c, s)) => {
                    proof {
                        assert(f0.contains((c, s)));
                        assert((s as int) < space.n_spec());
                        assert(frontier_entries(&frontier) == f0.remove((c, s)));
                    }
                    let ds = dist[s];
                    if ds.is_some() {
                        // A stale entry: this state was already finalized at an
                        // equal-or-lower cost; discard without processing.
                        proof {
                            Self::lemma_pop_preserves(
                                space,
                                grid,
                                policy,
                                f0,
                                (c, s),
                                dist@,
                                best@,
                                init_cost_max(space, grid) + count_done(dist@) * edge_cost_max(
                                    space,
                                    grid,
                                ),
                            );
                        }
                    } else if policy.should_discard(s, c) {
                        proof {
                            Self::lemma_pop_preserves(
                                space,
                                grid,
                                policy,
                                f0,
                                (c, s),
                                dist@,
                                best@,
                                init_cost_max(space, grid) + count_done(dist@) * edge_cost_max(
                                    space,
                                    grid,
                                ),
                            );
                        }
                    } else if space.is_goal(grid, s) {
                        proof {
                            assert(reaches(space, grid, s as int, c as int));
                            let tr0 = choose|tr: Seq<(int, int)>|
                                valid_trace(space, grid, tr) && tr.last() == (s as int, c as int);
                            assert(goal_trace(space, grid, tr0) && tr0.last().1 == c as int);
                            assert forall|tr: Seq<(int, int)>|
                                goal_trace(space, grid, tr) implies c as int <= tr.last().1 by {
                                lemma_trace_wf(space, grid, tr);
                                let last = tr.len() - 1;
                                lemma_goal_witness(space, grid, policy, f0, dist@, tr, last);
                                let e = choose|e: (u64, usize)| #[trigger]
                                    f0.contains(e) && e.0 as int <= tr[last].1;
                                assert(entry_le((c, s), e));
                            }
                            assert(is_optimal_goal_cost(space, grid, c as int));
                            lemma_count_done_lt(dist@, s as int);
                        }
                        return (Ok(c), visited + 1);
                    } else {
                        let ghost dist0 = dist@;
                        proof {
                            lemma_count_done_lt(dist0, s as int);
                        }
                        dist[s] = Some(c);
                        visited = visited + 1;
                        proof {
                            lemma_count_done_update(dist0, s as int, c);
                            assert(dist@ =~= dist0.update(s as int, Some(c)));
                            Self::lemma_finalize(
                                space,
                                grid,
                                policy,
                                f0,
                                (c, s),
                                dist0,
                                best@,
                            );
                            lemma_edge_cost_max(space, grid, 0, 0);
                            let im = init_cost_max(space, grid);
                            let em = edge_cost_max(space, grid);
                            let cnt0 = count_done(dist0);
                            assert(cnt0 * em <= (cnt0 + 1) * em) by (nonlinear_arith)
                                requires
                                    0 <= em,
                            ;
                            assert(c as int <= im + cnt0 * em);
                            assert forall|s2: int|
                                0 <= s2 < dist@.len() && (#[trigger] dist@[s2]) is Some implies dv(
                                dist@[s2],
                            ) <= im + count_done(dist@) * em by {
                                if s2 != s as int {
                                    assert(dist@[s2] == dist0[s2]);
                                }
                            }
                            assert forall|e: (u64, usize)| #[trigger]
                                frontier_entries(&frontier).contains(e) implies e.0 as int <= im
                                + count_done(dist@) * em by {
                                assert(f0.contains(e));
                            }
                        }
                        let ts = space.transitions(grid, s);
                        let mut j: usize = 0;
                        while j < ts.len()
                            invariant
                                space.inv(),
                                grid.wf(),
                                space.fits(grid),
                                prune_sound_for(policy, space, grid),
                                n as int == space.n_spec(),
                                dist@.len() == n,
                                best@.len() == n,
                                (s as int) < n,
                                dist@[s as int] == Some(c),
                                0 <= j <= ts.len(),
                                pairs_view(ts@) == space.edges_spec(grid, s as int),
                                frontier_entries(&frontier).finite(),
                                inv_entries(space, grid, frontier_entries(&frontier)),
                                inv_done_reach(space, grid, dist@),
                                inv_done_goal_opt(space, grid, dist@),
                                inv_init_cov(space, grid, policy, frontier_entries(&frontier), dist@),
                                inv_best(policy, frontier_entries(&frontier), dist@, best@),
                                inv_no_goal_done(space, grid, dist@),
                                inv_entry_costs(
                                    frontier_entries(&frontier),
                                    init_cost_max(space, grid) + count_done(dist@)
                                        * edge_cost_max(space, grid),
                                ),
                                inv_done_costs(
                                    dist@,
                                    init_cost_max(space, grid) + count_done(dist@)
                                        * edge_cost_max(space, grid),
                                ),
                                c as int <= init_cost_max(space, grid) + (count_done(dist@) - 1)
                                    * edge_cost_max(space, grid),
                                0 <= edge_cost_max(space, grid),
                                visited as int == count_done(dist@),
                                forall|u: int, jj: int|
                                    0 <= u < dist@.len() && dist@[u] is Some && 0 <= jj
                                        < space.edges_spec(grid, u).len() && (u != s as int || jj
                                        < j) ==> {
                                        let v = (#[trigger] space.edges_spec(grid, u)[jj]).0;
                                        let w = space.edges_spec(grid, u)[jj].1;
                                        (0 <= v < dist@.len() && dist@[v] is Some) || covered(
                                            frontier_entries(&frontier),
                                            policy,
                                            v,
                                            dv(dist@[u]) + w,
                                        )
                                    },
                            decreases ts.len() - j,
                        {
                            let (v, w) = ts[j];
                            proof {
                                space.edges_wf(grid, s as int);
                                assert(pairs_view(ts@)[j as int] == space.edges_spec(
                                    grid,
                                    s as int,
                                )[j as int]);
                                assert(space.edges_spec(grid, s as int)[j as int].0 == v as int);
                                assert(space.edges_spec(grid, s as int)[j as int].1 == w as int);
                                assert((v as int) < space.n_spec());
                            }
                            let tentative = match c.checked_add(w) {
                                Some(t) => t,
                                None => {
                                    proof {
                                        lemma_count_done_bounds(dist@);
                                        lemma_edge_cost_max(space, grid, s as int, j as int);
                                        let im = init_cost_max(space, grid);
                                        let em = edge_cost_max(space, grid);
                                        let cnt = count_done(dist@);
                                        assert((cnt - 1) * em + em == cnt * em)
                                            by (nonlinear_arith);
                                        assert(cnt * em <= (n as int) * em) by (nonlinear_arith)
                                            requires
                                                cnt <= n as int,
                                                0 <= em,
                                        ;
                                        assert(!cost_width_ok(space, grid));
                                    }
                                    return (Err(SearchError::CostOverflow), visited);
                                },
                            };
                            let dvv = dist[v];
                            if dvv.is_none() {
                                let bv = best[v];
                                let improves: bool = match bv {
                                    None => true,
                                    Some(b) => tentative < b,
                                };
                                let ghost f1 = frontier_entries(&frontier);
                                let ghost best0 = best@;
                                if improves {
                                    frontier.push(tentative, v);
                                    best[v] = Some(tentative);
                                    proof {
                                        assert(frontier_entries(&frontier) == f1.insert(
                                            (tentative, v),
                                        ));
                                        assert(best@ =~= best0.update(v as int, Some(tentative)));
                                        assert(reaches(space, grid, s as int, c as int));
                                        lemma_reaches_step(
                                            space,
                                            grid,
                                            s as int,
                                            c as int,
                                            j as int,
                                        );
                                        Self::lemma_push_preserves(
                                            space,
                                            grid,
                                            policy,
                                            f1,
                                            (tentative, v),
                                            dist@,
                                            best0,
                                        );
                                        assert(frontier_entries(&frontier).contains(
                                            (tentative, v),
                                        ));
                                        lemma_edge_cost_max(space, grid, s as int, j as int);
                                        assert((count_done(dist@) - 1) * edge_cost_max(
                                            space,
                                            grid,
                                        ) + edge_cost_max(space, grid) == count_done(dist@)
                                            * edge_cost_max(space, grid)) by (nonlinear_arith);
                                        assert forall|e: (u64, usize)| #[trigger]
                                            frontier_entries(&frontier).contains(e) implies e.0
                                            as int <= init_cost_max(space, grid) + count_done(
                                            dist@,
                                        ) * edge_cost_max(space, grid) by {
                                            if e != (tentative, v) {
                                                assert(f1.contains(e));
                                            }
                                        }
                                        assert forall|u: int, jj: int|
                                            0 <= u < dist@.len() && dist@[u] is Some && 0 <= jj
                                                < space.edges_spec(grid, u).len() && (u != s as int
                                                || jj < j + 1) implies {
                                            let vv = (#[trigger] space.edges_spec(grid, u)[jj]).0;
                                            let ww = space.edges_spec(grid, u)[jj].1;
                                            (0 <= vv < dist@.len() && dist@[vv] is Some) || covered(
                                                frontier_entries(&frontier),
                                                policy,
                                                vv,
                                                dv(dist@[u]) + ww,
                                            )
                                        } by {
                                            let vv = space.edges_spec(grid, u)[jj].0;
                                            let ww = space.edges_spec(grid, u)[jj].1;
                                            if u == s as int && jj == j {
                                                assert(covered(
                                                    frontier_entries(&frontier),
                                                    policy,
                                                    vv,
                                                    dv(dist@[u]) + ww,
                                                ));
                                            } else {
                                                if !(0 <= vv < dist@.len() && dist@[vv] is Some) {
                                                    lemma_covered_insert(
                                                        f1,
                                                        (tentative, v),
                                                        policy,
                                                        vv,
                                                        dv(dist@[u]) + ww,
                                                    );
                                                }
                                            }
                                        }
                                    }
                                } else {
                                    proof {
                                        let b = bv->Some_0;
                                        assert(covered(f1, policy, v as int, dv(best@[v as int])));
                                        lemma_covered_weaken(
                                            f1,
                                            policy,
                                            v as int,
                                            dv(best@[v as int]),
                                            c as int + w as int,
                                        );
                                        assert forall|u: int, jj: int|
                                            0 <= u < dist@.len() && dist@[u] is Some && 0 <= jj
                                                < space.edges_spec(grid, u).len() && (u != s as int
                                                || jj < j + 1) implies {
                                            let vv = (#[trigger] space.edges_spec(grid, u)[jj]).0;
                                            let ww = space.edges_spec(grid, u)[jj].1;
                                            (0 <= vv < dist@.len() && dist@[vv] is Some) || covered(
                                                frontier_entries(&frontier),
                                                policy,
                                                vv,
                                                dv(dist@[u]) + ww,
                                            )
                                        } by {}
                                    }
                                }
                            } else {
                                proof {
                                    assert forall|u: int, jj: int|
                                        0 <= u < dist@.len() && dist@[u] is Some && 0 <= jj
                                            < space.edges_spec(grid, u).len() && (u != s as int
                                            || jj < j + 1) implies {
                                        let vv = (#[trigger] space.edges_spec(grid, u)[jj]).0;
                                        let ww = space.edges_spec(grid, u)[jj].1;
                                        (0 <= vv < dist@.len() && dist@[vv] is Some) || covered(
                                            frontier_entries(&frontier),
                                            policy,
                                            vv,
                                            dv(dist@[u]) + ww,
                                        )
                                    } by {}
                                }
                            }
                            j += 1;
                        }
                    }
                },
            }
        }
    }

    /// Removing a popped entry preserves the covering invariants when the
    /// entry's state is already finalized or the policy discards the entry.
    proof fn lemma_pop_preserves<S: StateSpace, P: PruningPolicy>(
        space: &S,
        grid: &GridModel,
        policy: &P,
        f0: Set<(u64, usize)>,
        x: (u64, usize),
        dist: Seq<Option<u64>>,
        best: Seq<Option<u64>>,
        bound: int,
    )
        requires
            dist.len() == space.n_spec(),
            f0.contains(x),
            inv_entries(space, grid, f0),
            inv_entry_costs(f0, bound),
            inv_edges_cov(space, grid, policy, f0, dist),
            inv_init_cov(space, grid, policy, f0, dist),
            inv_best(policy, f0, dist, best),
            (0 <= (x.1 as int) && (x.1 as int) < dist.len() && dist[x.1 as int] is Some) || policy.discards(
                x.1 as int,
                x.0 as int,
            ),
        ensures
            inv_entries(space, grid, f0.remove(x)),
            inv_entry_costs(f0.remove(x), bound),
            inv_edges_cov(space, grid, policy, f0.remove(x), dist),
            inv_init_cov(space, grid, policy, f0.remove(x), dist),
            inv_best(policy, f0.remove(x), dist, best),
    {
        let f1 = f0.remove(x);
        assert forall|e: (u64, usize)| #[trigger] f1.contains(e) implies (e.1 as int)
            < space.n_spec() && reaches(space, grid, e.1 as int, e.0 as int) by {
            assert(f0.contains(e));
        }
        assert forall|e: (u64, usize)| #[trigger] f1.contains(e) implies e.0 as int <= bound by {
            assert(f0.contains(e));
        }
        assert forall|u: int, j: int|
            0 <= u < dist.len() && dist[u] is Some && 0 <= j < space.edges_spec(grid, u).len()
                implies {
            let v = (#[trigger] space.edges_spec(grid, u)[j]).0;
            let w = space.edges_spec(grid, u)[j].1;
            (0 <= v < dist.len() && dist[v] is Some) || covered(f1, policy, v, dv(dist[u]) + w)
        } by {
            let v = space.edges_spec(grid, u)[j].0;
            let w = space.edges_spec(grid, u)[j].1;
            if !(0 <= v < dist.len() && dist[v] is Some) {
                if x.1 as int == v {
                    assert(policy.discards(x.1 as int, x.0 as int));
                }
                lemma_covered_remove(f0, x, policy, v, dv(dist[u]) + w);
            }
        }
        assert forall|k: int| 0 <= k < space.init_spec(grid).len() implies {
            let s0 = (#[trigger] space.init_spec(grid)[k]).0;
            let c0 = space.init_spec(grid)[k].1;
            (0 <= s0 < dist.len() && dist[s0] is Some) || covered(f1, policy, s0, c0)
        } by {
            let s0 = space.init_spec(grid)[k].0;
            let c0 = space.init_spec(grid)[k].1;
            if !(0 <= s0 < dist.len() && dist[s0] is Some) {
                if x.1 as int == s0 {
                    assert(policy.discards(x.1 as int, x.0 as int));
                }
                lemma_covered_remove(f0, x, policy, s0, c0);
            }
        }
        assert forall|v: int|
            0 <= v < dist.len() && dist[v] is None && (#[trigger] best[v]) is Some implies covered(
            f1,
            policy,
            v,
            dv(best[v]),
        ) by {
            if x.1 as int == v {
                assert(policy.discards(x.1 as int, x.0 as int));
            }
            lemma_covered_remove(f0, x, policy, v, dv(best[v]));
        }
    }

    /// Finalizing the popped minimum re-establishes the invariants on the
    /// updated distance map.
    proof fn lemma_finalize<S: StateSpace, P: PruningPolicy>(
        space: &S,
        grid: &GridModel,
        policy: &P,
        f0: Set<(u64, usize)>,
        x: (u64, usize),
        dist: Seq<Option<u64>>,
        best: Seq<Option<u64>>,
    )
        requires
            space.inv(),
            grid.wf(),
            space.fits(grid),
            prune_sound_for(policy, space, grid),
            dist.len() == space.n_spec(),
            0 <= (x.1 as int) && (x.1 as int) < dist.len(),
            dist[x.1 as int] is None,
            !space.goal_spec(grid, x.1 as int),
            f0.contains(x),
            forall|e2: (u64, usize)| f0.contains(e2) ==> entry_le(x, e2),
            inv_entries(space, grid, f0),
            inv_done_reach(space, grid, dist),
            inv_done_goal_opt(space, grid, dist),
            inv_edges_cov(space, grid, policy, f0, dist),
            inv_init_cov(space, grid, policy, f0, dist),
            inv_best(policy, f0, dist, best),
            inv_no_goal_done(space, grid, dist),
        ensures
            inv_entries(space, grid, f0.remove(x)),
            inv_done_reach(space, grid, dist.update(x.1 as int, Some(x.0))),
            inv_done_goal_opt(space, grid, dist.update(x.1 as int, Some(x.0))),
            inv_init_cov(space, grid, policy, f0.remove(x), dist.update(x.1 as int, Some(x.0))),
            inv_best(policy, f0.remove(x), dist.update(x.1 as int, Some(x.0)), best),
            inv_no_goal_done(space, grid, dist.update(x.1 as int, Some(x.0))),
            forall|u: int, j: int|
                0 <= u < dist.len() && dist.update(x.1 as int, Some(x.0))[u] is Some && u != x.1
                    as int && 0 <= j < space.edges_spec(grid, u).len() ==> {
                    let v = (#[trigger] space.edges_spec(grid, u)[j]).0;
                    let w = space.edges_spec(grid, u)[j].1;
                    (0 <= v < dist.len() && dist.update(x.1 as int, Some(x.0))[v] is Some)
                        || covered(
                        f0.remove(x),
                        policy,
                        v,
                        dv(dist.update(x.1 as int, Some(x.0))[u]) + w,
                    )
                },
    {
        let s = x.1 as int;
        let c = x.0 as int;
        let f1 = f0.remove(x);
        let dist1 = dist.update(s, Some(x.0));
        assert forall|e: (u64, usize)| #[trigger] f1.contains(e) implies (e.1 as int)
            < space.n_spec() && reaches(space, grid, e.1 as int, e.0 as int) by {
            assert(f0.contains(e));
        }
        assert(reaches(space, grid, s, c));
        assert forall|ss: int|
            0 <= ss < dist1.len() && (#[trigger] dist1[ss]) is Some implies reaches(
            space,
            grid,
            ss,
            dv(dist1[ss]),
        ) by {
            if ss != s {
                assert(dist1[ss] == dist[ss]);
            }
        }
        assert forall|tr: Seq<(int, int)>, k: int|
            #![trigger goal_trace(space, grid, tr), tr[k]]
            goal_trace(space, grid, tr) && 0 <= k < tr.len() && 0 <= tr[k].0 < dist1.len()
                && dist1[tr[k].0] is Some implies dv(dist1[tr[k].0]) <= tr[k].1 by {
            if tr[k].0 == s {
                lemma_goal_witness(space, grid, policy, f0, dist, tr, k);
                let e = choose|e: (u64, usize)| #[trigger] f0.contains(e) && e.0 as int <= tr[k].1;
                assert(entry_le(x, e));
                assert(dv(dist1[tr[k].0]) == c);
            } else {
                assert(dist1[tr[k].0] == dist[tr[k].0]);
            }
        }
        assert forall|k: int| 0 <= k < space.init_spec(grid).len() implies {
            let s0 = (#[trigger] space.init_spec(grid)[k]).0;
            let c0 = space.init_spec(grid)[k].1;
            (0 <= s0 < dist1.len() && dist1[s0] is Some) || covered(f1, policy, s0, c0)
        } by {
            let s0 = space.init_spec(grid)[k].0;
            let c0 = space.init_spec(grid)[k].1;
            if !(0 <= s0 < dist1.len() && dist1[s0] is Some) {
                assert(s0 != s);
                assert(dist1[s0] == dist[s0] || !(0 <= s0 < dist.len()));
                lemma_covered_remove(f0, x, policy, s0, c0);
            }
        }
        assert forall|v: int|
            0 <= v < dist1.len() && dist1[v] is None && (#[trigger] best[v]) is Some implies covered(
            f1,
            policy,
            v,
            dv(best[v]),
        ) by {
            assert(v != s);
            assert(dist1[v] == dist[v]);
            lemma_covered_remove(f0, x, policy, v, dv(best[v]));
        }
        assert forall|u: int, j: int|
            0 <= u < dist.len() && dist1[u] is Some && u != s && 0 <= j < space.edges_spec(
                grid,
                u,
            ).len() implies {
            let v = (#[trigger] space.edges_spec(grid, u)[j]).0;
            let w = space.edges_spec(grid, u)[j].1;
            (0 <= v < dist.len() && dist1[v] is Some) || covered(f1, policy, v, dv(dist1[u]) + w)
        } by {
            let v = space.edges_spec(grid, u)[j].0;
            let w = space.edges_spec(grid, u)[j].1;
            assert(dist1[u] == dist[u]);
            if !(0 <= v < dist.len() && dist1[v] is Some) {
                if v == s {
                    assert(dist1[s] is Some);
                    assert(false);
                }
                assert(dist1[v] == dist[v] || !(0 <= v < dist.len()));
                lemma_covered_remove(f0, x, policy, v, dv(dist[u]) + w);
            }
        }
    }

    /// Pushing a fresh entry preserves the reach and covering invariants.
    proof fn lemma_push_preserves<S: StateSpace, P: PruningPolicy>(
        space: &S,
        grid: &GridModel,
        policy: &P,
        f1: Set<(u64, usize)>,
        x: (u64, usize),
        dist: Seq<Option<u64>>,
        best: Seq<Option<u64>>,
    )
        requires
            dist.len() == space.n_spec(),
            best.len() == dist.len(),
            0 <= (x.1 as int) && (x.1 as int) < dist.len(),
            reaches(space, grid, x.1 as int, x.0 as int),
            inv_entries(space, grid, f1),
            inv_init_cov(space, grid, policy, f1, dist),
            inv_best(policy, f1, dist, best),
        ensures
            inv_entries(space, grid, f1.insert(x)),
            inv_init_cov(space, grid, policy, f1.insert(x), dist),
            inv_best(policy, f1.insert(x), dist, best.update(x.1 as int, Some(x.0))),
    {
        let f2 = f1.insert(x);
        let best1 = best.update(x.1 as int, Some(x.0));
        assert forall|e: (u64, usize)| #[trigger] f2.contains(e) implies (e.1 as int)
            < space.n_spec() && reaches(space, grid, e.1 as int, e.0 as int) by {
            if e != x {
                assert(f1.contains(e));
            }
        }
        assert forall|k: int| 0 <= k < space.init_spec(grid).len() implies {
            let s0 = (#[trigger] space.init_spec(grid)[k]).0;
            let c0 = space.init_spec(grid)[k].1;
            (0 <= s0 < dist.len() && dist[s0] is Some) || covered(f2, policy, s0, c0)
        } by {
            let s0 = space.init_spec(grid)[k].0;
            let c0 = space.init_spec(grid)[k].1;
            if !(0 <= s0 < dist.len() && dist[s0] is Some) {
                lemma_covered_insert(f1, x, policy, s0, c0);
            }
        }
        assert forall|v: int|
            0 <= v < dist.len() && dist[v] is None && (#[trigger] best1[v]) is Some implies covered(
            f2,
            policy,
            v,
            dv(best1[v]),
        ) by {
            if v == x.1 as int {
                assert(f2.contains(x));
            } else {
                assert(best1[v] == best[v]);
                lemma_covered_insert(f1, x, policy, v, dv(best[v]));
            }
        }
    }

    /// Finalizing the popped minimum re-establishes the full-map
    /// invariants on the updated distance map.
    proof fn lemma_finalize_all<S: StateSpace, P: PruningPolicy>(
        space: &S,
        grid: &GridModel,
        policy: &P,
        f0: Set<(u64, usize)>,
        x: (u64, usize),
        dist: Seq<Option<u64>>,
        best: Seq<Option<u64>>,
    )
        requires
            space.inv(),
            grid.wf(),
            space.fits(grid),
            forall|v: int, c: int| !(#[trigger] policy.discards(v, c)),
            dist.len() == space.n_spec(),
            0 <= (x.1 as int) && (x.1 as int) < dist.len(),
            dist[x.1 as int] is None,
            f0.contains(x),
            forall|e2: (u64, usize)| f0.contains(e2) ==> entry_le(x, e2),
            inv_entries(space, grid, f0),
            inv_done_reach(space, grid, dist),
            inv_done_opt_all(space, grid, dist),
            inv_edges_cov(space, grid, policy, f0, dist),
            inv_init_cov(space, grid, policy, f0, dist),
            inv_best(policy, f0, dist, best),
        ensures
            inv_entries(space, grid, f0.remove(x)),
            inv_done_reach(space, grid, dist.update(x.1 as int, Some(x.0))),
            inv_done_opt_all(space, grid, dist.update(x.1 as int, Some(x.0))),
            inv_init_cov(space, grid, policy, f0.remove(x), dist.update(x.1 as int, Some(x.0))),
            inv_best(policy, f0.remove(x), dist.update(x.1 as int, Some(x.0)), best),
            forall|u: int, j: int|
                0 <= u < dist.len() && dist.update(x.1 as int, Some(x.0))[u] is Some && u != x.1
                    as int && 0 <= j < space.edges_spec(grid, u).len() ==> {
                    let v = (#[trigger] space.edges_spec(grid, u)[j]).0;
                    let w = space.edges_spec(grid, u)[j].1;
                    (0 <= v < dist.len() && dist.update(x.1 as int, Some(x.0))[v] is Some)
                        || covered(
                        f0.remove(x),
                        policy,
                        v,
                        dv(dist.update(x.1 as int, Some(x.0))[u]) + w,
                    )
                },
    {
        let s = x.1 as int;
        let c = x.0 as int;
        let f1 = f0.remove(x);
        let dist1 = dist.update(s, Some(x.0));
        assert forall|e: (u64, usize)| #[trigger] f1.contains(e) implies (e.1 as int)
            < space.n_spec() && reaches(space, grid, e.1 as int, e.0 as int) by {
            assert(f0.contains(e));
        }
        assert(reaches(space, grid, s, c));
        assert forall|ss: int|
            0 <= ss < dist1.len() && (#[trigger] dist1[ss]) is Some implies reaches(
            space,
            grid,
            ss,
            dv(dist1[ss]),
        ) by {
            if ss != s {
                assert(dist1[ss] == dist[ss]);
            }
        }
        assert forall|tr: Seq<(int, int)>, k: int|
            #![trigger valid_trace(space, grid, tr), tr[k]]
            valid_trace(space, grid, tr) && 0 <= k < tr.len() && 0 <= tr[k].0 < dist1.len()
                && dist1[tr[k].0] is Some implies dv(dist1[tr[k].0]) <= tr[k].1 by {
            if tr[k].0 == s {
                lemma_valid_witness(space, grid, policy, f0, dist, tr, k);
                let e = choose|e: (u64, usize)| #[trigger] f0.contains(e) && e.0 as int <= tr[k].1;
                assert(entry_le(x, e));
                assert(dv(dist1[tr[k].0]) == c);
            } else {
                assert(dist1[tr[k].0] == dist[tr[k].0]);
            }
        }
        assert forall|k: int| 0 <= k < space.init_spec(grid).len() implies {
            let s0 = (#[trigger] space.init_spec(grid)[k]).0;
            let c0 = space.init_spec(grid)[k].1;
            (0 <= s0 < dist1.len() && dist1[s0] is Some) || covered(f1, policy, s0, c0)
        } by {
            let s0 = space.init_spec(grid)[k].0;
            let c0 = space.init_spec(grid)[k].1;
            if !(0 <= s0 < dist1.len() && dist1[s0] is Some) {
                assert(s0 != s);
                assert(dist1[s0] == dist[s0] || !(0 <= s0 < dist.len()));
                lemma_covered_remove(f0, x, policy, s0, c0);
            }
        }
        assert forall|v: int|
            0 <= v < dist1.len() && dist1[v] is None && (#[trigger] best[v]) is Some implies covered(
            f1,
            policy,
            v,
            dv(best[v]),
        ) by {
            assert(v != s);
            assert(dist1[v] == dist[v]);
            lemma_covered_remove(f0, x, policy, v, dv(best[v]));
        }
        assert forall|u: int, j: int|
            0 <= u < dist.len() && dist1[u] is Some && u != s && 0 <= j < space.edges_spec(
                grid,
                u,
            ).len() implies {
            let v = (#[trigger] space.edges_spec(grid, u)[j]).0;
            let w = space.edges_spec(grid, u)[j].1;
            (0 <= v < dist.len() && dist1[v] is Some) || covered(f1, policy, v, dv(dist1[u]) + w)
        } by {
            let v = space.edges_spec(grid, u)[j].0;
            let w = space.edges_spec(grid, u)[j].1;
            assert(dist1[u] == dist[u]);
            if !(0 <= v < dist.len() && dist1[v] is Some) {
                if v == s {
                    assert(dist1[s] is Some);
                    assert(false);
                }
                assert(dist1[v] == dist[v] || !(0 <= v < dist.len()));
                lemma_covered_remove(f0, x, policy, v, dv(dist[u]) + w);
            }
        }
    }

    /// Runs the search to frontier exhaustion with no goal predicate and no
    /// pruning, returning the complete distance map: the optimal cumulative
    /// cost of every reachable state, and `None` for every unreachable one.
    /// Equivalent to unweighted breadth-first search when every edge cost
    /// is 1.
    pub fn full_distance_map<S: StateSpace>(space: &S, grid: &GridModel) -> (r: Result<
        Vec<Option<u64>>,
        SearchError,
    >)
        requires
            space.inv(),
            grid.wf(),
            space.fits(grid),
        ensures
            full_map_post(space, grid, r),
    {
        let policy = NoPruning;
        let n = space.num_states(grid);
        let mut dist = vec_filled_none(n);
        let mut best = vec_filled_none(n);
        let mut frontier = Frontier::new();
        Self::seed_initial(space, grid, &policy, &mut frontier, &mut best);
        proof {
            assert(count_done(dist@) == 0) by {
                lemma_count_done_bounds(dist@);
                if count_done(dist@) > 0 {
                    lemma_count_all_none(dist@);
                }
            }
            lemma_init_cost_max(space, grid, 0);
            lemma_edge_cost_max(space, grid, 0, 0);
            assert forall|e: (u64, usize)| #[trigger]
                frontier_entries(&frontier).contains(e) implies e.0 as int <= init_cost_max(
                space,
                grid,
            ) + count_done(dist@) * edge_cost_max(space, grid) by {}
        }

        loop
            invariant
                space.inv(),
                grid.wf(),
                space.fits(grid),
                n as int == space.n_spec(),
                dist@.len() == n,
                best@.len() == n,
                frontier_entries(&frontier).finite(),
                inv_entries(space, grid, frontier_entries(&frontier)),
                inv_done_reach(space, grid, dist@),
                inv_done_opt_all(space, grid, dist@),
                inv_edges_cov(space, grid, &policy, frontier_entries(&frontier), dist@),
                inv_init_cov(space, grid, &policy, frontier_entries(&frontier), dist@),
                inv_best(&policy, frontier_entries(&frontier), dist@, best@),
                inv_entry_costs(
                    frontier_entries(&frontier),
                    init_cost_max(space, grid) + count_done(dist@) * edge_cost_max(space, grid),
                ),
                inv_done_costs(
                    dist@,
                    init_cost_max(space, grid) + count_done(dist@) * edge_cost_max(space, grid),
                ),
            decreases n - count_done(dist@), frontier_entries(&frontier).len(),
        {
            proof {
                lemma_count_done_bounds(dist@);
            }
            let ghost f0 = frontier_entries(&frontier);
            let popped = frontier.pop();
            match popped {
                None => {
                    proof {
                        assert forall|s: int|
                            0 <= s < dist@.len() && (#[trigger] dist@[s])
                                is Some implies is_optimal_cost_to(
                            space,
                            grid,
                            s,
                            dv(dist@[s]),
                        ) by {
                            assert(reaches(space, grid, s, dv(dist@[s])));
                            assert forall|c2: int| reaches(space, grid, s, c2) implies dv(dist@[s])
                                <= c2 by {
                                let tr = choose|tr: Seq<(int, int)>|
                                    valid_trace(space, grid, tr) && tr.last() == (s, c2);
                                lemma_trace_wf(space, grid, tr);
                                let last = tr.len() - 1;
                                assert(tr[last].0 == s && tr[last].1 == c2);
                                assert(valid_trace(space, grid, tr) && dist@[tr[last].0] is Some);
                            }
                        }
                        assert forall|s: int, c: int|
                            0 <= s < dist@.len() && dist@[s] is None implies !reaches(
                            space,
                            grid,
                            s,
                            c,
                        ) by {
                            if reaches(space, grid, s, c) {
                                let tr = choose|tr: Seq<(int, int)>|
                                    valid_trace(space, grid, tr) && tr.last() == (s, c);
                                let last = tr.len() - 1;
                                assert(tr[last].0 == s);
                                lemma_valid_witness(space, grid, &policy, f0, dist@, tr, last);
                                let e = choose|e: (u64, usize)| #[trigger]
                                    f0.contains(e) && e.0 as int <= tr[last].1;
                                assert(false);
                            }
                        }
                    }
                    return Ok(dist);
                },
                Some((c, s)) => {
                    proof {
                        assert(f0.contains((c, s)));
                        assert((s as int) < space.n_spec());
                        assert(frontier_entries(&frontier) == f0.remove((c, s)));
                    }
                    let ds = dist[s];
                    if ds.is_some() {
                        // A stale entry: this state was already finalized at an
                        // equal-or-lower cost; discard without processing.
                        proof {
                            Self::lemma_pop_preserves(
                                space,
                                grid,
                                &policy,
                                f0,
                                (c, s),
                                dist@,
                                best@,
                                init_cost_max(space, grid) + count_done(dist@) * edge_cost_max(
                                    space,
                                    grid,
                                ),
                            );
                        }
                    } else {
                        let ghost dist0 = dist@;
                        proof {
                            lemma_count_done_lt(dist0, s as int);
                        }
                        dist[s] = Some(c);
                        proof {
                            lemma_count_done_update(dist0, s as int, c);
                            assert(dist@ =~= dist0.update(s as int, Some(c)));
                            Self::lemma_finalize_all(
                                space,
                                grid,
                                &policy,
                                f0,
                                (c, s),
                                dist0,
                                best@,
                            );
                            lemma_edge_cost_max(space, grid, 0, 0);
                            let im = init_cost_max(space, grid);
                            let em = edge_cost_max(space, grid);
                            let cnt0 = count_done(dist0);
                            assert(cnt0 * em <= (cnt0 + 1) * em) by (nonlinear_arith)
                                requires
                                    0 <= em,
                            ;
                            assert(c as int <= im + cnt0 * em);
                            assert forall|s2: int|
                                0 <= s2 < dist@.len() && (#[trigger] dist@[s2]) is Some implies dv(
                                dist@[s2],
                            ) <= im + count_done(dist@) * em by {
                                if s2 != s as int {
                                    assert(dist@[s2] == dist0[s2]);
                                }
                            }
                            assert forall|e: (u64, usize)| #[trigger]
                                frontier_entries(&frontier).contains(e) implies e.0 as int <= im
                                + count_done(dist@) * em by {
                                assert(f0.contains(e));
                            }
                        }
                        let ts = space.transitions(grid, s);
                        let mut j: usize = 0;
                        while j < ts.len()
                            invariant
                                space.inv(),
                                grid.wf(),
                                space.fits(grid),
                                n as int == space.n_spec(),
                                dist@.len() == n,
                                best@.len() == n,
                                (s as int) < n,
                                dist@[s as int] == Some(c),
                                0 <= j <= ts.len(),
                                pairs_view(ts@) == space.edges_spec(grid, s as int),
                                frontier_entries(&frontier).finite(),
                                inv_entries(space, grid, frontier_entries(&frontier)),
                                inv_done_reach(space, grid, dist@),
                                inv_done_opt_all(space, grid, dist@),
                                inv_init_cov(space, grid, &policy, frontier_entries(&frontier), dist@),
                                inv_best(&policy, frontier_entries(&frontier), dist@, best@),
                                inv_entry_costs(
                                    frontier_entries(&frontier),
                                    init_cost_max(space, grid) + count_done(dist@)
                                        * edge_cost_max(space, grid),
                                ),
                                inv_done_costs(
                                    dist@,
                                    init_cost_max(space, grid) + count_done(dist@)
                                        * edge_cost_max(space, grid),
                                ),
                                c as int <= init_cost_max(space, grid) + (count_done(dist@) - 1)
                                    * edge_cost_max(space, grid),
                                0 <= edge_cost_max(space, grid),
                                forall|u: int, jj: int|
                                    0 <= u < dist@.len() && dist@[u] is Some && 0 <= jj
                                        < space.edges_spec(grid, u).len() && (u != s as int || jj
                                        < j) ==> {
                                        let v = (#[trigger] space.edges_spec(grid, u)[jj]).0;
                                        let w = space.edges_spec(grid, u)[jj].1;
                                        (0 <= v < dist@.len() && dist@[v] is Some) || covered(
                                            frontier_entries(&frontier),
                                            &policy,
                                            v,
                                            dv(dist@[u]) + w,
                                        )
                                    },
                            decreases ts.len() - j,
                        {
                            let (v, w) = ts[j];
                            proof {
                                space.edges_wf(grid, s as int);
                                assert(pairs_view(ts@)[j as int] == space.edges_spec(
                                    grid,
                                    s as int,
                                )[j as int]);
                                assert(space.edges_spec(grid, s as int)[j as int].0 == v as int);
                                assert(space.edges_spec(grid, s as int)[j as int].1 == w as int);
                                assert((v as int) < space.n_spec());
                            }
                            let tentative = match c.checked_add(w) {
                                Some(t) => t,
                                None => {
                                    proof {
                                        lemma_count_done_bounds(dist@);
                                        lemma_edge_cost_max(space, grid, s as int, j as int);
                                        let im = init_cost_max(space, grid);
                                        let em = edge_cost_max(space, grid);
                                        let cnt = count_done(dist@);
                                        assert((cnt - 1) * em + em == cnt * em)
                                            by (nonlinear_arith);
                                        assert(cnt * em <= (n as int) * em) by (nonlinear_arith)
                                            requires
                                                cnt <= n as int,
                                                0 <= em,
                                        ;
                                        assert(!cost_width_ok(space, grid));
                                        assert(reaches(space, grid, s as int, c as int));
                                        assert forall|c2: int|
                                            reaches(space, grid, s as int, c2) implies c as int
                                            <= c2 by {
                                            let tr = choose|tr: Seq<(int, int)>|
                                                valid_trace(space, grid, tr) && tr.last() == (
                                                s as int,
                                                c2,
                                                );
                                            lemma_trace_wf(space, grid, tr);
                                            let last = tr.len() - 1;
                                            assert(tr[last].0 == s as int && tr[last].1 == c2);
                                            assert(dv(dist@[tr[last].0]) <= tr[last].1);
                                        }
                                        assert(is_optimal_cost_to(space, grid, s as int, c as int)
                                            && 0 <= (j as int) && (j as int) < space.edges_spec(
                                            grid,
                                            s as int,
                                        ).len() && c as int + space.edges_spec(grid, s as int)[
                                        j as int].1 > u64::MAX);
                                        assert(overflow_report(space, grid));
                                    }
                                    return Err(SearchError::CostOverflow);
                                },
                            };
                            let dvv = dist[v];
                            if dvv.is_none() {
                                let bv = best[v];
                                let improves: bool = match bv {
                                    None => true,
                                    Some(b) => tentative < b,
                                };
                                let ghost f1 = frontier_entries(&frontier);
                                let ghost best0 = best@;
                                if improves {
                                    frontier.push(tentative, v);
                                    best[v] = Some(tentative);
                                    proof {
                                        assert(frontier_entries(&frontier) == f1.insert(
                                            (tentative, v),
                                        ));
                                        assert(best@ =~= best0.update(v as int, Some(tentative)));
                                        assert(reaches(space, grid, s as int, c as int));
                                        lemma_reaches_step(
                                            space,
                                            grid,
                                            s as int,
                                            c as int,
                                            j as int,
                                        );
                                        Self::lemma_push_preserves(
                                            space,
                                            grid,
                                            &policy,
                                            f1,
                                            (tentative, v),
                                            dist@,
                                            best0,
                                        );
                                        assert(frontier_entries(&frontier).contains(
                                            (tentative, v),
                                        ));
                                        lemma_edge_cost_max(space, grid, s as int, j as int);
                                        assert((count_done(dist@) - 1) * edge_cost_max(
                                            space,
                                            grid,
                                        ) + edge_cost_max(space, grid) == count_done(dist@)
                                            * edge_cost_max(space, grid)) by (nonlinear_arith);
                                        assert forall|e: (u64, usize)| #[trigger]
                                            frontier_entries(&frontier).contains(e) implies e.0
                                            as int <= init_cost_max(space, grid) + count_done(
                                            dist@,
                                        ) * edge_cost_max(space, grid) by {
                                            if e != (tentative, v) {
                                                assert(f1.contains(e));
                                            }
                                        }
                                        assert forall|u: int, jj: int|
                                            0 <= u < dist@.len() && dist@[u] is Some && 0 <= jj
                                                < space.edges_spec(grid, u).len() && (u != s as int
                                                || jj < j + 1) implies {
                                            let vv = (#[trigger] space.edges_spec(grid, u)[jj]).0;
                                            let ww = space.edges_spec(grid, u)[jj].1;
                                            (0 <= vv < dist@.len() && dist@[vv] is Some) || covered(
                                                frontier_entries(&frontier),
                                                &policy,
                                                vv,
                                                dv(dist@[u]) + ww,
                                            )
                                        } by {
                                            let vv = space.edges_spec(grid, u)[jj].0;
                                            let ww = space.edges_spec(grid, u)[jj].1;
                                            if u == s as int && jj == j {
                                                assert(covered(
                                                    frontier_entries(&frontier),
                                                    &policy,
                                                    vv,
                                                    dv(dist@[u]) + ww,
                                                ));
                                            } else {
                                                if !(0 <= vv < dist@.len() && dist@[vv] is Some) {
                                                    lemma_covered_insert(
                                                        f1,
                                                        (tentative, v),
                                                        &policy,
                                                        vv,
                                                        dv(dist@[u]) + ww,
                                                    );
                                                }
                                            }
                                        }
                                    }
                                } else {
                                    proof {
                                        assert(covered(f1, &policy, v as int, dv(best@[v as int])));
                                        lemma_covered_weaken(
                                            f1,
                                            &policy,
                                            v as int,
                                            dv(best@[v as int]),
                                            c as int + w as int,
                                        );
                                        assert forall|u: int, jj: int|
                                            0 <= u < dist@.len() && dist@[u] is Some && 0 <= jj
                                                < space.edges_spec(grid, u).len() && (u != s as int
                                                || jj < j + 1) implies {
                                            let vv = (#[trigger] space.edges_spec(grid, u)[jj]).0;
                                            let ww = space.edges_spec(grid, u)[jj].1;
                                            (0 <= vv < dist@.len() && dist@[vv] is Some) || covered(
                                                frontier_entries(&frontier),
                                                &policy,
                                                vv,
                                                dv(dist@[u]) + ww,
                                            )
                                        } by {}
                                    }
                                }
                            } else {
                                proof {
                                    assert forall|u: int, jj: int|
                                        0 <= u < dist@.len() && dist@[u] is Some && 0 <= jj
                                            < space.edges_spec(grid, u).len() && (u != s as int
                                            || jj < j + 1) implies {
                                        let vv = (#[trigger] space.edges_spec(grid, u)[jj]).0;
                                        let ww = space.edges_spec(grid, u)[jj].1;
                                        (0 <= vv < dist@.len() && dist@[vv] is Some) || covered(
                                            frontier_entries(&frontier),
                                            &policy,
                                            vv,
                                            dv(dist@[u]) + ww,
                                        )
                                    } by {}
                                }
                            }
                            j += 1;
                        }
                    }
                },
            }
        }
    }

    /// Uniform-cost search to the first finalized goal state, without
    /// pruning.
    pub fn find_first_goal<S: StateSpace>(space: &S, grid: &GridModel) -> (r: Result<
        u64,
        SearchError,
    >)
        requires
            space.inv(),
            grid.wf(),
            space.fits(grid),
        ensures
            find_first_post(space, grid, r),
    {
        let policy = NoPruning;
        proof {
            lemma_no_pruning_sound(&policy, space, grid);
        }
        let (r, _count) = Self::find_first_goal_counted(space, grid, &policy);
        r
    }

    /// The generic search entry point: seed the frontier with the initial
    /// states, then repeatedly extract the minimum-cost entry, finalize it,
    /// and relax its transitions, until the goal is satisfied
    /// (`FindFirstGoal`) or the frontier is exhausted (`FullDistanceMap`).
    pub fn run<S: StateSpace>(space: &S, grid: &GridModel, mode: SearchMode) -> (r: Result<
        SearchOutcome,
        SearchError,
    >)
        requires
            space.inv(),
            grid.wf(),
            space.fits(grid),
        ensures
            match r {
                Ok(SearchOutcome::Cost(c)) => mode is FindFirstGoal && is_optimal_goal_cost(
                    space,
                    grid,
                    c as int,
                ),
                Ok(SearchOutcome::DistanceMap(dm)) => mode is FullDistanceMap && distance_map_ok(
                    space,
                    grid,
                    dm@,
                ),
                Err(e) => match mode {
                    SearchMode::FindFirstGoal => find_first_post(space, grid, Err(e)),
                    SearchMode::FullDistanceMap => full_map_post(space, grid, Err(e)),
                },
            },
    {
        match mode {
            SearchMode::FindFirstGoal => {
                match Self::find_first_goal(space, grid) {
                    Ok(c) => Ok(SearchOutcome::Cost(c)),
                    Err(e) => Err(e),
                }
            },
            SearchMode::FullDistanceMap => {
                match Self::full_distance_map(space, grid) {
                    Ok(dm) => Ok(SearchOutcome::DistanceMap(dm)),
                    Err(e) => Err(e),
                }
            },
        }
    }
}

proof fn lemma_count_all_none(dist: Seq<Option<u64>>)
    requires
        forall|s: int| 0 <= s < dist.len() ==> (#[trigger] dist[s]) is None,
    ensures
        count_done(dist) == 0,
    decreases dist.len(),
{
    if dist.len() > 0 {
        lemma_count_all_none(dist.drop_last());
    }
}

} // verus!
