use vstd::prelude::*;

verus! {

/// Failure taxonomy of the search core.
///
/// `MalformedGrid` reports an inconsistent grid handed in by the caller
/// (rows of unequal length, or an empty grid). `UnreachableGoal` reports a
/// frontier that emptied before any goal state was finalized. `CostOverflow`
/// reports cumulative cost arithmetic that would exceed the cost width.
#[derive(Clone, Copy, Debug, PartialEq, Eq, Structural)]
pub enum SearchError {
    MalformedGrid,
    UnreachableGoal,
    CostOverflow,
}

} // verus!
