//! What is asked of a dominance relation for the fronts to hold every
//! position: that no chain of dominations leads back to where it began.

use crate::domination::DominationOrd;
use crate::graph::{dominates, graph_of, lemma_graph_of, measured, Graph};
use vstd::prelude::*;

verus! {

/// `m` is a member of `u` that no member of `u` dominates.
pub open spec fn minimal_in(g: Graph, u: Set<int>, m: int) -> bool {
    u.contains(m) && forall|p: int| u.contains(p) ==> !dominates(g, p, m)
}

/// `u` has a member, and all its members are positions of `g`.
pub open spec fn inhabited_within(g: Graph, u: Set<int>) -> bool {
    (exists|x: int| u.contains(x)) && forall|x: int| u.contains(x) ==> 0 <= x < g.len()
}

/// Some member of `u` is dominated by no member of `u`.
pub open spec fn has_minimal(g: Graph, u: Set<int>) -> bool {
    exists|m: int| minimal_in(g, u, m)
}

/// No chain of dominations in `g` leads back to where it began. As every
/// graph is finite this is to say that each set of positions, unless it is
/// empty, has a member that none of its members dominates.
pub open spec fn acyclic(g: Graph) -> bool {
    forall|u: Set<int>| inhabited_within(g, u) ==> #[trigger] has_minimal(g, u)
}

/// In `g` nothing dominates itself, and domination is transitive.
pub open spec fn strict_order(g: Graph) -> bool {
    &&& forall|p: int| !#[trigger] dominates(g, p, p)
    &&& forall|p: int, q: int, t: int|
        #[trigger] dominates(g, p, q) && #[trigger] dominates(g, q, t) ==> dominates(g, p, t)
}

/// The solution at position `p` dominates the one at position `q`, as the
/// capability `d` has it.
pub open spec fn dominates_at<D: DominationOrd>(d: &D, s: Seq<D::Solution>, p: int, q: int) -> bool {
    d.dominates_spec(&s[p], &s[q])
}

/// Among the solutions `s` the relation of `d` is a strict partial order:
/// no solution dominates itself, and domination is transitive.
pub open spec fn strict_order_on<D: DominationOrd>(d: &D, s: Seq<D::Solution>) -> bool {
    &&& forall|p: int| 0 <= p < s.len() ==> !#[trigger] dominates_at(d, s, p, p)
    &&& forall|p: int, q: int, t: int|
        0 <= p < s.len() && 0 <= q < s.len() && 0 <= t < s.len() && #[trigger] dominates_at(
            d,
            s,
            p,
            q,
        ) && #[trigger] dominates_at(d, s, q, t) ==> dominates_at(d, s, p, t)
}

/// A member of `u` that is `x` or dominates it, and that no member of `u`
/// below `m` dominates.
proof fn descend(g: Graph, u: Set<int>, x: int, m: int) -> (y: int)
    requires
        strict_order(g),
        u.contains(x),
        0 <= m,
    ensures
        u.contains(y),
        y == x || dominates(g, y, x),
        forall|z: int| 0 <= z < m && u.contains(z) ==> !dominates(g, z, y),
    decreases m,
{
    if m == 0 {
        x
    } else {
        let y = descend(g, u, x, m - 1);
        if u.contains(m - 1) && dominates(g, m - 1, y) {
            let top = descend(g, u, m - 1, m - 1);
            if top != m - 1 {
                assert(dominates(g, top, m - 1));
                if dominates(g, m - 1, top) {
                    assert(dominates(g, top, top));
                }
                assert(dominates(g, top, y));
            }
            top
        } else {
            y
        }
    }
}

/// A strict partial order has no cycle.
pub proof fn lemma_strict_order_acyclic(g: Graph)
    requires
        strict_order(g),
    ensures
        acyclic(g),
{
    assert forall|u: Set<int>| inhabited_within(g, u) implies #[trigger] has_minimal(g, u) by {
        let x = choose|x: int| u.contains(x);
        let m = descend(g, u, x, g.len() as int);
        assert(minimal_in(g, u, m));
    }
}

/// Where the capability is a strict partial order among the solutions, the
/// sort measures exactly its dominations, and their graph is a strict
/// partial order too.
pub proof fn lemma_strict_order_on_graph<D: DominationOrd>(d: &D, s: Seq<D::Solution>)
    requires
        strict_order_on(d, s),
    ensures
        forall|p: int, q: int|
            0 <= p < s.len() && 0 <= q < s.len() ==> #[trigger] measured(d, s, p, q)
                == dominates_at(d, s, p, q),
        strict_order(graph_of(d, s)),
        acyclic(graph_of(d, s)),
{
    let g = graph_of(d, s);
    lemma_graph_of(d, s);
    assert forall|p: int, q: int| 0 <= p < s.len() && 0 <= q < s.len() implies #[trigger] measured(
        d,
        s,
        p,
        q,
    ) == dominates_at(d, s, p, q) by {
        if dominates_at(d, s, p, q) && dominates_at(d, s, q, p) {
            assert(dominates_at(d, s, p, p));
        }
    }
    assert forall|p: int, q: int, t: int| #[trigger]
        dominates(g, p, q) && #[trigger] dominates(g, q, t) implies dominates(g, p, t) by {
        assert(measured(d, s, p, q) && measured(d, s, q, t));
        assert(dominates_at(d, s, p, q) && dominates_at(d, s, q, t));
        assert(dominates_at(d, s, p, t));
        assert(measured(d, s, p, t));
    }
    assert forall|p: int| !#[trigger] dominates(g, p, p) by {
        assert(!measured(d, s, p, p));
    }
    lemma_strict_order_acyclic(g);
}

} // verus!
