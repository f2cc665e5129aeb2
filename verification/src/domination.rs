//! The dominance relation that a sort is made under.

use std::cmp::Ordering;
use vstd::prelude::*;

verus! {

/// The dominance relation between two solutions. There are three possible
/// situations:
///
/// - Either solution `a` dominates solution `b` ("a < b")
/// - Or solution `b` dominates solution `a` ("a > b")
/// - Or neither solution `a` nor `b` dominates each other ("a == b")
///
/// For the fronts to hold every solution the relation has to be a strict
/// partial order. That is left to the implementor: nothing here demands it,
/// and the sort is defined for every relation.
pub trait DominationOrd {
    /// The solution value type on which the dominance relation is defined.
    type Solution;

    /// The relation itself: `a` dominates `b`. It depends on the two
    /// solutions alone.
    spec fn dominates_spec(&self, a: &Self::Solution, b: &Self::Solution) -> bool;

    /// Returns the domination order: `Less` where `a` dominates `b`,
    /// `Greater` where it does not and `b` dominates `a`, and `Equal` where
    /// neither dominates the other.
    fn domination_ord(&self, a: &Self::Solution, b: &Self::Solution) -> (r: Ordering)
        ensures
            (r == Ordering::Less) == self.dominates_spec(a, b),
            (r == Ordering::Greater) == (!self.dominates_spec(a, b) && self.dominates_spec(b, a)),
    ;

    /// Returns true if `a` dominates `b` ("a < b").
    fn dominates(&self, a: &Self::Solution, b: &Self::Solution) -> (r: bool)
        ensures
            r == self.dominates_spec(a, b),
    {
        match self.domination_ord(a, b) {
            Ordering::Less => true,
            _ => false,
        }
    }
}

} // verus!
