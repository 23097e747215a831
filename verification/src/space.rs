use vstd::prelude::*;

use crate::grid_model::GridModel;

verus! {

/// Turns a list of (state, cost) pairs into its mathematical view.
pub open spec fn pairs_view(s: Seq<(usize, u64)>) -> Seq<(int, int)> {
    s.map_values(|p: (usize, u64)| (p.0 as int, p.1 as int))
}

/// A pluggable definition of a finite, encoded state space over a grid: the
/// states are the integers `0 .. n_spec()`, and the space supplies the
/// initial states with their starting costs, the transition function with
/// its non-negative edge costs, and the goal predicate.
///
/// Every executable method is pinned to a specification-level counterpart,
/// so a state space is a pure function of its inputs: two calls on equal
/// arguments describe the same search problem.
pub trait StateSpace: Sized {
    /// Well-formedness of the state-space definition itself.
    spec fn inv(&self) -> bool;

    /// Whether this state space fits the given grid (bounds, symbol rules).
    spec fn fits(&self, grid: &GridModel) -> bool;

    /// How many encoded states there are.
    spec fn n_spec(&self) -> int;

    /// The exact list of (next state, edge cost) pairs offered from state
    /// `s` on `grid`, in a fixed order.
    spec fn edges_spec(&self, grid: &GridModel, s: int) -> Seq<(int, int)>;

    /// The exact list of initial (state, starting cost) pairs.
    spec fn init_spec(&self, grid: &GridModel) -> Seq<(int, int)>;

    /// The goal predicate.
    spec fn goal_spec(&self, grid: &GridModel, s: int) -> bool;

    /// Every edge leads to an encoded state and carries a cost that is
    /// non-negative and fits the cost width.
    proof fn edges_wf(&self, grid: &GridModel, s: int)
        requires
            self.inv(),
            grid.wf(),
            self.fits(grid),
            0 <= s < self.n_spec(),
        ensures
            forall|i: int|
                0 <= i < self.edges_spec(grid, s).len() ==> {
                    &&& 0 <= (#[trigger] self.edges_spec(grid, s)[i]).0 < self.n_spec()
                    &&& 0 <= self.edges_spec(grid, s)[i].1 <= u64::MAX
                },
    ;

    /// Every initial state is an encoded state and its starting cost fits
    /// the cost width.
    proof fn init_wf(&self, grid: &GridModel)
        requires
            self.inv(),
            grid.wf(),
            self.fits(grid),
        ensures
            forall|i: int|
                0 <= i < self.init_spec(grid).len() ==> {
                    &&& 0 <= (#[trigger] self.init_spec(grid)[i]).0 < self.n_spec()
                    &&& 0 <= self.init_spec(grid)[i].1 <= u64::MAX
                },
    ;

    /// The number of encoded states.
    fn num_states(&self, grid: &GridModel) -> (r: usize)
        requires
            self.inv(),
            grid.wf(),
            self.fits(grid),
        ensures
            r as int == self.n_spec(),
    ;

    /// The initial states, each with its starting cost.
    fn initial_states(&self, grid: &GridModel) -> (r: Vec<(usize, u64)>)
        requires
            self.inv(),
            grid.wf(),
            self.fits(grid),
        ensures
            pairs_view(r@) == self.init_spec(grid),
    ;

    /// The transitions from state `s`: each reachable (next state, cost).
    fn transitions(&self, grid: &GridModel, s: usize) -> (r: Vec<(usize, u64)>)
        requires
            self.inv(),
            grid.wf(),
            self.fits(grid),
            (s as int) < self.n_spec(),
        ensures
            pairs_view(r@) == self.edges_spec(grid, s as int),
    ;

    /// Whether state `s` satisfies the goal predicate.
    fn is_goal(&self, grid: &GridModel, s: usize) -> (r: bool)
        requires
            self.inv(),
            grid.wf(),
            self.fits(grid),
            (s as int) < self.n_spec(),
        ensures
            r == self.goal_spec(grid, s as int),
    ;
}

} // verus!
