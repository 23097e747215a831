use vstd::prelude::*;

use crate::grid_model::GridModel;
use crate::space::StateSpace;

verus! {

/// One legal step: some edge of state `a.0` leads to state `b.0` and raises
/// the cumulative cost by exactly that edge's cost.
pub open spec fn step_ok<S: StateSpace>(
    space: &S,
    grid: &GridModel,
    a: (int, int),
    b: (int, int),
) -> bool {
    exists|i: int|
        0 <= i < space.edges_spec(grid, a.0).len() && (#[trigger] space.edges_spec(grid, a.0)[i]).0
            == b.0 && b.1 == a.1 + space.edges_spec(grid, a.0)[i].1
}

/// A trace: a non-empty run of (state, cumulative cost) pairs that starts
/// at an initial state with its starting cost and follows transitions.
pub open spec fn valid_trace<S: StateSpace>(
    space: &S,
    grid: &GridModel,
    tr: Seq<(int, int)>,
) -> bool {
    &&& tr.len() > 0
    &&& space.init_spec(grid).contains(tr[0])
    &&& forall|i: int| 0 < i < tr.len() ==> #[trigger] step_ok(space, grid, tr[i - 1], tr[i])
}

/// A trace that ends in a goal state.
pub open spec fn goal_trace<S: StateSpace>(
    space: &S,
    grid: &GridModel,
    tr: Seq<(int, int)>,
) -> bool {
    valid_trace(space, grid, tr) && space.goal_spec(grid, tr.last().0)
}

/// State `s` can be reached with cumulative cost `c`.
pub open spec fn reaches<S: StateSpace>(space: &S, grid: &GridModel, s: int, c: int) -> bool {
    exists|tr: Seq<(int, int)>| valid_trace(space, grid, tr) && tr.last() == (s, c)
}

/// Some goal state can be reached.
pub open spec fn goal_reachable<S: StateSpace>(space: &S, grid: &GridModel) -> bool {
    exists|tr: Seq<(int, int)>| goal_trace(space, grid, tr)
}

/// `c` is the optimal goal cost: some goal trace ends at cost `c`, and no
/// goal trace ends cheaper.
pub open spec fn is_optimal_goal_cost<S: StateSpace>(space: &S, grid: &GridModel, c: int) -> bool {
    &&& exists|tr: Seq<(int, int)>| goal_trace(space, grid, tr) && tr.last().1 == c
    &&& forall|tr: Seq<(int, int)>| goal_trace(space, grid, tr) ==> c <= tr.last().1
}

/// `c` is the optimal cost of reaching state `s`.
pub open spec fn is_optimal_cost_to<S: StateSpace>(
    space: &S,
    grid: &GridModel,
    s: int,
    c: int,
) -> bool {
    &&& reaches(space, grid, s, c)
    &&& forall|c2: int| reaches(space, grid, s, c2) ==> c <= c2
}

/// The largest starting cost among the first `k` initial states.
pub open spec fn init_max_upto<S: StateSpace>(space: &S, grid: &GridModel, k: int) -> int
    decreases k,
{
    if k <= 0 {
        0
    } else if space.init_spec(grid)[k - 1].1 >= init_max_upto(space, grid, k - 1) {
        space.init_spec(grid)[k - 1].1
    } else {
        init_max_upto(space, grid, k - 1)
    }
}

/// The largest starting cost of any initial state (0 when there is none).
pub open spec fn init_cost_max<S: StateSpace>(space: &S, grid: &GridModel) -> int {
    init_max_upto(space, grid, space.init_spec(grid).len() as int)
}

/// The largest cost among the first `j` edges of state `s`.
pub open spec fn edge_max_in<S: StateSpace>(space: &S, grid: &GridModel, s: int, j: int) -> int
    decreases j,
{
    if j <= 0 {
        0
    } else if space.edges_spec(grid, s)[j - 1].1 >= edge_max_in(space, grid, s, j - 1) {
        space.edges_spec(grid, s)[j - 1].1
    } else {
        edge_max_in(space, grid, s, j - 1)
    }
}

/// The largest edge cost out of the first `s` states.
pub open spec fn edge_max_states<S: StateSpace>(space: &S, grid: &GridModel, s: int) -> int
    decreases s,
{
    if s <= 0 {
        0
    } else if edge_max_in(space, grid, s - 1, space.edges_spec(grid, s - 1).len() as int)
        >= edge_max_states(space, grid, s - 1) {
        edge_max_in(space, grid, s - 1, space.edges_spec(grid, s - 1).len() as int)
    } else {
        edge_max_states(space, grid, s - 1)
    }
}

/// The largest edge cost anywhere in the encoded state space (0 when
/// there is no edge).
pub open spec fn edge_cost_max<S: StateSpace>(space: &S, grid: &GridModel) -> int {
    edge_max_states(space, grid, space.n_spec())
}

/// The cost width is wide enough for this search problem: the worst
/// starting cost plus one maximal edge per state fits the cost word.
/// Every cost a search run handles is a starting cost plus at most one
/// edge per finalized state, so under this bound no run can overflow.
pub open spec fn cost_width_ok<S: StateSpace>(space: &S, grid: &GridModel) -> bool {
    init_cost_max(space, grid) + space.n_spec() * edge_cost_max(space, grid) <= u64::MAX
}

/// Every starting cost is bounded by the starting-cost maximum, which is
/// never negative.
pub proof fn lemma_init_cost_max<S: StateSpace>(space: &S, grid: &GridModel, k: int)
    ensures
        0 <= init_cost_max(space, grid),
        0 <= k < space.init_spec(grid).len() ==> space.init_spec(grid)[k].1 <= init_cost_max(
            space,
            grid,
        ),
{
    lemma_init_max_upto(space, grid, space.init_spec(grid).len() as int, k);
}

proof fn lemma_init_max_upto<S: StateSpace>(space: &S, grid: &GridModel, n: int, k: int)
    ensures
        0 <= init_max_upto(space, grid, n),
        0 <= k < n ==> space.init_spec(grid)[k].1 <= init_max_upto(space, grid, n),
    decreases n,
{
    if n > 0 {
        lemma_init_max_upto(space, grid, n - 1, k);
    }
}

/// Every edge cost of every encoded state is bounded by the edge-cost
/// maximum, which is never negative.
pub proof fn lemma_edge_cost_max<S: StateSpace>(space: &S, grid: &GridModel, s: int, j: int)
    ensures
        0 <= edge_cost_max(space, grid),
        0 <= s < space.n_spec() && 0 <= j < space.edges_spec(grid, s).len() ==> space.edges_spec(
            grid,
            s,
        )[j].1 <= edge_cost_max(space, grid),
{
    lemma_edge_max_states(space, grid, space.n_spec(), s, j);
}

proof fn lemma_edge_max_states<S: StateSpace>(
    space: &S,
    grid: &GridModel,
    n: int,
    s: int,
    j: int,
)
    ensures
        0 <= edge_max_states(space, grid, n),
        0 <= s < n && 0 <= j < space.edges_spec(grid, s).len() ==> space.edges_spec(grid, s)[j].1
            <= edge_max_states(space, grid, n),
    decreases n,
{
    if n > 0 {
        lemma_edge_max_states(space, grid, n - 1, s, j);
        if s == n - 1 {
            lemma_edge_max_in(space, grid, s, space.edges_spec(grid, s).len() as int, j);
        }
    }
}

proof fn lemma_edge_max_in<S: StateSpace>(space: &S, grid: &GridModel, s: int, n: int, j: int)
    ensures
        0 <= edge_max_in(space, grid, s, n),
        0 <= j < n ==> space.edges_spec(grid, s)[j].1 <= edge_max_in(space, grid, s, n),
    decreases n,
{
    if n > 0 {
        lemma_edge_max_in(space, grid, s, n - 1, j);
    }
}

/// A uniform bound on every edge cost bounds the edge-cost maximum: the
/// handle for discharging `cost_width_ok` on a concrete space.
pub proof fn lemma_edge_cost_max_le<S: StateSpace>(space: &S, grid: &GridModel, b: int)
    requires
        0 <= b,
        forall|s: int, j: int|
            0 <= s < space.n_spec() && 0 <= j < space.edges_spec(grid, s).len() ==> (
            #[trigger] space.edges_spec(grid, s)[j]).1 <= b,
    ensures
        edge_cost_max(space, grid) <= b,
{
    lemma_edge_max_states_le(space, grid, space.n_spec(), b);
}

proof fn lemma_edge_max_states_le<S: StateSpace>(space: &S, grid: &GridModel, n: int, b: int)
    requires
        0 <= b,
        n <= space.n_spec(),
        forall|s: int, j: int|
            0 <= s < space.n_spec() && 0 <= j < space.edges_spec(grid, s).len() ==> (
            #[trigger] space.edges_spec(grid, s)[j]).1 <= b,
    ensures
        edge_max_states(space, grid, n) <= b,
    decreases n,
{
    if n > 0 {
        lemma_edge_max_states_le(space, grid, n - 1, b);
        lemma_edge_max_in_le(space, grid, n - 1, space.edges_spec(grid, n - 1).len() as int, b);
    }
}

proof fn lemma_edge_max_in_le<S: StateSpace>(space: &S, grid: &GridModel, s: int, n: int, b: int)
    requires
        0 <= b,
        0 <= s < space.n_spec(),
        n <= space.edges_spec(grid, s).len(),
        forall|s2: int, j: int|
            0 <= s2 < space.n_spec() && 0 <= j < space.edges_spec(grid, s2).len() ==> (
            #[trigger] space.edges_spec(grid, s2)[j]).1 <= b,
    ensures
        edge_max_in(space, grid, s, n) <= b,
    decreases n,
{
    if n > 0 {
        lemma_edge_max_in_le(space, grid, s, n - 1, b);
    }
}

/// A uniform bound on every starting cost bounds the starting-cost
/// maximum.
pub proof fn lemma_init_cost_max_le<S: StateSpace>(space: &S, grid: &GridModel, b: int)
    requires
        0 <= b,
        forall|k: int|
            0 <= k < space.init_spec(grid).len() ==> (#[trigger] space.init_spec(grid)[k]).1 <= b,
    ensures
        init_cost_max(space, grid) <= b,
{
    lemma_init_max_upto_le(space, grid, space.init_spec(grid).len() as int, b);
}

proof fn lemma_init_max_upto_le<S: StateSpace>(space: &S, grid: &GridModel, n: int, b: int)
    requires
        0 <= b,
        n <= space.init_spec(grid).len(),
        forall|k: int|
            0 <= k < space.init_spec(grid).len() ==> (#[trigger] space.init_spec(grid)[k]).1 <= b,
    ensures
        init_max_upto(space, grid, n) <= b,
    decreases n,
{
    if n > 0 {
        lemma_init_max_upto_le(space, grid, n - 1, b);
    }
}

/// Every prefix of a trace is a trace.
pub proof fn lemma_trace_prefix<S: StateSpace>(
    space: &S,
    grid: &GridModel,
    tr: Seq<(int, int)>,
    k: int,
)
    requires
        valid_trace(space, grid, tr),
        0 < k <= tr.len(),
    ensures
        valid_trace(space, grid, tr.subrange(0, k)),
{
    let pre = tr.subrange(0, k);
    assert(pre[0] == tr[0]);
    assert forall|i: int| 0 < i < pre.len() implies #[trigger] step_ok(
        space,
        grid,
        pre[i - 1],
        pre[i],
    ) by {
        assert(pre[i - 1] == tr[i - 1]);
        assert(pre[i] == tr[i]);
        assert(step_ok(space, grid, tr[i - 1], tr[i]));
    }
}

/// A trace extended by one legal step is a trace.
pub proof fn lemma_trace_extend<S: StateSpace>(
    space: &S,
    grid: &GridModel,
    tr: Seq<(int, int)>,
    b: (int, int),
)
    requires
        valid_trace(space, grid, tr),
        step_ok(space, grid, tr.last(), b),
    ensures
        valid_trace(space, grid, tr.push(b)),
        tr.push(b).last() == b,
{
    let ext = tr.push(b);
    assert(ext[0] == tr[0]);
    assert forall|i: int| 0 < i < ext.len() implies #[trigger] step_ok(
        space,
        grid,
        ext[i - 1],
        ext[i],
    ) by {
        if i < tr.len() {
            assert(ext[i - 1] == tr[i - 1]);
            assert(ext[i] == tr[i]);
            assert(step_ok(space, grid, tr[i - 1], tr[i]));
        } else {
            assert(ext[i - 1] == tr[tr.len() - 1]);
            assert(ext[i] == b);
        }
    }
}

/// Along a trace, states stay within the encoded state space and
/// cumulative costs stay non-negative.
pub proof fn lemma_trace_wf<S: StateSpace>(space: &S, grid: &GridModel, tr: Seq<(int, int)>)
    requires
        space.inv(),
        grid.wf(),
        space.fits(grid),
        valid_trace(space, grid, tr),
    ensures
        forall|i: int|
            0 <= i < tr.len() ==> {
                &&& 0 <= (#[trigger] tr[i]).0 < space.n_spec()
                &&& 0 <= tr[i].1
            },
    decreases tr.len(),
{
    space.init_wf(grid);
    if tr.len() == 1 {
        let k = choose|k: int| 0 <= k < space.init_spec(grid).len() && space.init_spec(grid)[k]
            == tr[0];
        assert(0 <= space.init_spec(grid)[k].0 < space.n_spec());
    } else {
        let pre = tr.subrange(0, tr.len() - 1);
        lemma_trace_prefix(space, grid, tr, tr.len() - 1);
        lemma_trace_wf(space, grid, pre);
        assert forall|i: int| 0 <= i < tr.len() implies {
            &&& 0 <= (#[trigger] tr[i]).0 < space.n_spec()
            &&& 0 <= tr[i].1
        } by {
            if i < tr.len() - 1 {
                assert(tr[i] == pre[i]);
                assert(0 <= pre[i].0 < space.n_spec() && 0 <= pre[i].1);
            } else {
                let a = tr[i - 1];
                assert(a == pre[i - 1]);
                assert(0 <= a.0 < space.n_spec() && 0 <= a.1);
                assert(step_ok(space, grid, tr[i - 1], tr[i]));
                space.edges_wf(grid, a.0);
                let j = choose|j: int|
                    0 <= j < space.edges_spec(grid, a.0).len() && (#[trigger] space.edges_spec(
                        grid,
                        a.0,
                    )[j]).0 == tr[i].0 && tr[i].1 == a.1 + space.edges_spec(grid, a.0)[j].1;
                assert(0 <= space.edges_spec(grid, a.0)[j].0 < space.n_spec());
                assert(0 <= space.edges_spec(grid, a.0)[j].1);
            }
        }
    }
}

/// Edge costs are non-negative, so cumulative costs never decrease along a
/// trace.
pub proof fn lemma_trace_cost_mono<S: StateSpace>(
    space: &S,
    grid: &GridModel,
    tr: Seq<(int, int)>,
    i: int,
    j: int,
)
    requires
        space.inv(),
        grid.wf(),
        space.fits(grid),
        valid_trace(space, grid, tr),
        0 <= i <= j < tr.len(),
    ensures
        tr[i].1 <= tr[j].1,
    decreases j - i,
{
    if i < j {
        lemma_trace_cost_mono(space, grid, tr, i, j - 1);
        lemma_trace_wf(space, grid, tr);
        let a = tr[j - 1];
        assert(step_ok(space, grid, tr[j - 1], tr[j]));
        space.edges_wf(grid, a.0);
        let k = choose|k: int|
            0 <= k < space.edges_spec(grid, a.0).len() && (#[trigger] space.edges_spec(
                grid,
                a.0,
            )[k]).0 == tr[j].0 && tr[j].1 == a.1 + space.edges_spec(grid, a.0)[k].1;
        assert(0 <= space.edges_spec(grid, a.0)[k].1);
    }
}

/// Each initial (state, cost) pair is reached by the one-step trace that
/// starts there.
pub proof fn lemma_reaches_init<S: StateSpace>(space: &S, grid: &GridModel, k: int)
    requires
        0 <= k < space.init_spec(grid).len(),
    ensures
        reaches(space, grid, space.init_spec(grid)[k].0, space.init_spec(grid)[k].1),
{
    let tr = seq![space.init_spec(grid)[k]];
    assert(space.init_spec(grid).contains(tr[0]));
    assert(valid_trace(space, grid, tr));
    assert(tr.last() == (space.init_spec(grid)[k].0, space.init_spec(grid)[k].1));
}

/// Reachability extends along any single edge.
pub proof fn lemma_reaches_step<S: StateSpace>(
    space: &S,
    grid: &GridModel,
    s: int,
    c: int,
    j: int,
)
    requires
        reaches(space, grid, s, c),
        0 <= j < space.edges_spec(grid, s).len(),
    ensures
        reaches(space, grid, space.edges_spec(grid, s)[j].0, c + space.edges_spec(grid, s)[j].1),
{
    let tr = choose|tr: Seq<(int, int)>| valid_trace(space, grid, tr) && tr.last() == (s, c);
    let b = (space.edges_spec(grid, s)[j].0, c + space.edges_spec(grid, s)[j].1);
    assert(tr.last().0 == s && tr.last().1 == c);
    assert(space.edges_spec(grid, tr.last().0)[j] == space.edges_spec(grid, s)[j]);
    assert(step_ok(space, grid, tr.last(), b));
    lemma_trace_extend(space, grid, tr, b);
    assert(valid_trace(space, grid, tr.push(b)) && tr.push(b).last() == b);
}

/// The optimal goal cost is unique.
pub proof fn lemma_optimal_goal_cost_unique<S: StateSpace>(
    space: &S,
    grid: &GridModel,
    c1: int,
    c2: int,
)
    requires
        is_optimal_goal_cost(space, grid, c1),
        is_optimal_goal_cost(space, grid, c2),
    ensures
        c1 == c2,
{
    let tr1 = choose|tr: Seq<(int, int)>| goal_trace(space, grid, tr) && tr.last().1 == c1;
    let tr2 = choose|tr: Seq<(int, int)>| goal_trace(space, grid, tr) && tr.last().1 == c2;
    assert(c1 <= tr2.last().1);
    assert(c2 <= tr1.last().1);
}

} // verus!
