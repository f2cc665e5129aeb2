//! A sample dominance relation over pairs of objectives, for tests and
//! examples.

use crate::domination::DominationOrd;
use crate::order::strict_order_on;
use std::cmp::Ordering;
use vstd::prelude::*;

verus! {

/// A solution with two objectives, of both of which less is better.
pub struct Tuple(pub usize, pub usize);

/// The dominance relation on `Tuple`: one dominates another when it is no
/// worse in both objectives and better in at least one.
pub struct TupleDominationOrd;

impl DominationOrd for TupleDominationOrd {
    type Solution = Tuple;

    open spec fn dominates_spec(&self, a: &Tuple, b: &Tuple) -> bool {
        a.0 <= b.0 && a.1 <= b.1 && (a.0 < b.0 || a.1 < b.1)
    }

    fn domination_ord(&self, a: &Self::Solution, b: &Self::Solution) -> (r: Ordering) {
        if a.0 < b.0 && a.1 <= b.1 {
            Ordering::Less
        } else if a.0 <= b.0 && a.1 < b.1 {
            Ordering::Less
        } else if a.0 > b.0 && a.1 >= b.1 {
            Ordering::Greater
        } else if a.0 >= b.0 && a.1 > b.1 {
            Ordering::Greater
        } else {
            Ordering::Equal
        }
    }
}

/// The relation on `Tuple` is a strict partial order among any solutions.
pub proof fn lemma_tuple_strict_order(s: Seq<Tuple>)
    ensures
        strict_order_on(&TupleDominationOrd, s),
{
}

} // verus!
