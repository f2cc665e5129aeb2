//! Non-dominated sorting: the partition of a sequence of solutions into
//! pareto fronts under a dominance relation that the caller supplies.
//!
//! The first front holds the solutions that nothing dominates; each later
//! front holds those that are dominated only by members of the fronts before
//! it. The sort compares every pair of solutions once and then peels the
//! fronts off one after the other by counting dominators.

pub mod domination;
pub mod graph;
pub mod non_dominated_sort_impl;
pub mod order;
pub mod peeling;
pub mod sort;
pub mod test_helper_domination;

pub use domination::DominationOrd;
pub use non_dominated_sort_impl::{non_dominated_sort, Front, NonDominatedSort, SolutionWithIndex};
