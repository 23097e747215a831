//! A generalized weighted state-space search core for 2-D grid puzzles:
//! uniform-cost search (Dijkstra) and its unweighted special case (BFS),
//! parameterized over pluggable state spaces, goal predicates, pruning
//! policies and result-aggregation policies, together with verified
//! solvers built on top of it.

pub mod aggregate;
pub mod budget_space;
pub mod checkpoint_space;
pub mod climb;
pub mod collect_space;
pub mod driver;
pub mod errors;
pub mod excavation;
pub mod flood;
pub mod frontier;
pub mod grid_model;
pub mod herb;
pub mod laws;
pub mod level_space;
pub mod nails;
pub mod paths;
pub mod plain_space;
pub mod potions;
pub mod prune;
pub mod space;
pub mod stamps;
pub mod textnum;

pub use aggregate::Aggregator;
pub use driver::SearchDriver;
pub use driver::SearchMode;
pub use driver::SearchOutcome;
pub use errors::SearchError;
pub use grid_model::Connectivity;
pub use grid_model::GridModel;
pub use prune::NoPruning;
pub use prune::PruningPolicy;
pub use space::StateSpace;
