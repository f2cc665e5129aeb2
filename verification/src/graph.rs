//! The dominance graph over the positions of an input sequence: for each
//! position the positions that it dominates, and the counting of dominators
//! on which front extraction rests.

use crate::domination::DominationOrd;
use vstd::prelude::*;

verus! {

/// For each position of the input, the positions that it dominates.
pub type Graph = Seq<Seq<int>>;

/// How many positions below `m` satisfy `f`.
pub open spec fn count_below(f: spec_fn(int) -> bool, m: int) -> nat
    decreases m,
{
    if m <= 0 {
        0
    } else if f(m - 1) {
        count_below(f, m - 1) + 1
    } else {
        count_below(f, m - 1)
    }
}

/// The positions below `m` that satisfy `f`, in ascending order.
pub open spec fn positions_where(f: spec_fn(int) -> bool, m: int) -> Seq<int>
    decreases m,
{
    if m <= 0 {
        Seq::empty()
    } else if f(m - 1) {
        positions_where(f, m - 1).push(m - 1)
    } else {
        positions_where(f, m - 1)
    }
}

/// A count over `m` positions is at most `m`.
pub proof fn lemma_count_below_bound(f: spec_fn(int) -> bool, m: int)
    requires
        0 <= m,
    ensures
        count_below(f, m) <= m,
    decreases m,
{
    if m > 0 {
        lemma_count_below_bound(f, m - 1);
    }
}

/// A count is zero exactly when no position below `m` satisfies `f`.
pub proof fn lemma_count_below_zero(f: spec_fn(int) -> bool, m: int)
    ensures
        count_below(f, m) == 0 <==> (forall|x: int| 0 <= x < m ==> !#[trigger] f(x)),
    decreases m,
{
    if m > 0 {
        lemma_count_below_zero(f, m - 1);
        if count_below(f, m) == 0 {
            assert forall|x: int| 0 <= x < m implies !#[trigger] f(x) by {
                if x < m - 1 {
                } else {
                    assert(x == m - 1);
                }
            }
        } else if forall|x: int| 0 <= x < m ==> !#[trigger] f(x) {
            assert(!f(m - 1));
            assert(forall|x: int| 0 <= x < m - 1 ==> !#[trigger] f(x));
        }
    }
}

/// Two predicates that agree below `m` count the same.
pub proof fn lemma_count_below_agree(f: spec_fn(int) -> bool, h: spec_fn(int) -> bool, m: int)
    requires
        forall|x: int| 0 <= x < m ==> #[trigger] f(x) == h(x),
    ensures
        count_below(f, m) == count_below(h, m),
    decreases m,
{
    if m > 0 {
        lemma_count_below_agree(f, h, m - 1);
    }
}

/// Dropping one counted position lowers the count by one.
pub proof fn lemma_count_below_drop(
    f: spec_fn(int) -> bool,
    h: spec_fn(int) -> bool,
    m: int,
    x: int,
)
    requires
        0 <= x < m,
        f(x),
        !h(x),
        forall|y: int| 0 <= y < m && y != x ==> #[trigger] f(y) == h(y),
    ensures
        count_below(f, m) == count_below(h, m) + 1,
    decreases m,
{
    if x == m - 1 {
        lemma_count_below_agree(f, h, m - 1);
    } else {
        lemma_count_below_drop(f, h, m - 1, x);
    }
}

/// `positions_where` holds exactly the positions below `m` that satisfy `f`.
pub proof fn lemma_positions_where_contains(f: spec_fn(int) -> bool, m: int, x: int)
    ensures
        positions_where(f, m).contains(x) <==> (0 <= x < m && f(x)),
    decreases m,
{
    if m > 0 {
        lemma_positions_where_contains(f, m - 1, x);
        let rest = positions_where(f, m - 1);
        if f(m - 1) {
            let all = rest.push(m - 1);
            if all.contains(x) {
                let k = choose|k: int| 0 <= k < all.len() && all[k] == x;
                if k < rest.len() {
                    assert(rest[k] == x);
                }
            }
            if 0 <= x < m && f(x) {
                if x == m - 1 {
                    assert(all[rest.len() as int] == x);
                } else {
                    let k = choose|k: int| 0 <= k < rest.len() && rest[k] == x;
                    assert(all[k] == x);
                }
            }
        }
    }
}

/// `positions_where` is strictly ascending, and so holds nothing twice.
pub proof fn lemma_positions_where_ascending(f: spec_fn(int) -> bool, m: int)
    ensures
        forall|a: int, b: int|
            0 <= a < b < positions_where(f, m).len() ==> positions_where(f, m)[a]
                < positions_where(f, m)[b],
        positions_where(f, m).no_duplicates(),
    decreases m,
{
    if m > 0 {
        lemma_positions_where_ascending(f, m - 1);
        let rest = positions_where(f, m - 1);
        assert forall|a: int| 0 <= a < rest.len() implies rest[a] < m - 1 by {
            assert(rest.contains(rest[a]));
            lemma_positions_where_contains(f, m - 1, rest[a]);
        }
    }
}

/// Two predicates that agree below `m` select the same positions.
pub proof fn lemma_positions_where_agree(
    f: spec_fn(int) -> bool,
    h: spec_fn(int) -> bool,
    m: int,
)
    requires
        forall|x: int| 0 <= x < m ==> #[trigger] f(x) == h(x),
    ensures
        positions_where(f, m) == positions_where(h, m),
    decreases m,
{
    if m > 0 {
        lemma_positions_where_agree(f, h, m - 1);
    }
}

/// The members of `list` before place `j` that satisfy `f`, in the order of
/// the list.
pub open spec fn members_where(list: Seq<int>, f: spec_fn(int) -> bool, j: int) -> Seq<int>
    decreases j,
{
    if j <= 0 {
        Seq::empty()
    } else if f(list[j - 1]) {
        members_where(list, f, j - 1).push(list[j - 1])
    } else {
        members_where(list, f, j - 1)
    }
}

/// `members_where` holds exactly the members before place `j` that satisfy `f`.
pub proof fn lemma_members_where_contains(list: Seq<int>, f: spec_fn(int) -> bool, j: int, x: int)
    requires
        j <= list.len(),
    ensures
        members_where(list, f, j).contains(x) <==> (f(x) && exists|k: int|
            0 <= k < j && list[k] == x),
    decreases j,
{
    if j > 0 {
        lemma_members_where_contains(list, f, j - 1, x);
        let rest = members_where(list, f, j - 1);
        let all = members_where(list, f, j);
        if all.contains(x) {
            let k = choose|k: int| 0 <= k < all.len() && all[k] == x;
            if k < rest.len() {
                assert(rest[k] == x);
                assert(rest.contains(x));
            } else {
                assert(list[j - 1] == x);
            }
        }
        if f(x) && exists|k: int| 0 <= k < j && list[k] == x {
            let k = choose|k: int| 0 <= k < j && list[k] == x;
            if k == j - 1 {
                assert(all[rest.len() as int] == x);
            } else {
                assert(rest.contains(x));
                let i = choose|i: int| 0 <= i < rest.len() && rest[i] == x;
                assert(all[i] == x);
            }
        }
    }
}

/// What is selected from a list without duplicates has none.
pub proof fn lemma_members_where_no_duplicates(list: Seq<int>, f: spec_fn(int) -> bool, j: int)
    requires
        j <= list.len(),
        list.no_duplicates(),
    ensures
        members_where(list, f, j).no_duplicates(),
    decreases j,
{
    if j > 0 {
        lemma_members_where_no_duplicates(list, f, j - 1);
        lemma_members_where_contains(list, f, j - 1, list[j - 1]);
        let rest = members_where(list, f, j - 1);
        assert forall|a: int| 0 <= a < rest.len() implies rest[a] != list[j - 1] by {
            if rest[a] == list[j - 1] {
                assert(rest.contains(list[j - 1]));
            }
        }
    }
}

/// In `g`, position `p` dominates position `q`.
pub open spec fn dominates(g: Graph, p: int, q: int) -> bool {
    0 <= p < g.len() && g[p].contains(q)
}

/// Every list of `g` names positions of `g`, and none of them twice.
pub open spec fn valid_graph(g: Graph) -> bool {
    forall|p: int|
        0 <= p < g.len() ==> (#[trigger] g[p]).no_duplicates() && forall|k: int|
            0 <= k < g[p].len() ==> 0 <= #[trigger] g[p][k] < g.len()
}

/// Position `p` dominates position `q` as the sort measures it: the
/// capability is asked once for each pair, the lower position first, and
/// the answer for the reversed pair is taken from that one call.
pub open spec fn measured<D: DominationOrd>(
    d: &D,
    s: Seq<D::Solution>,
    p: int,
    q: int,
) -> bool {
    &&& 0 <= p < s.len()
    &&& 0 <= q < s.len()
    &&& if p < q {
        d.dominates_spec(&s[p], &s[q])
    } else {
        q < p && !d.dominates_spec(&s[q], &s[p]) && d.dominates_spec(&s[p], &s[q])
    }
}

/// The test "is dominated by `p`".
pub open spec fn dominated_by<D: DominationOrd>(d: &D, s: Seq<D::Solution>, p: int) -> spec_fn(
    int,
) -> bool {
    |q: int| measured(d, s, p, q)
}

/// The test "dominates `q`".
pub open spec fn dominators_of<D: DominationOrd>(d: &D, s: Seq<D::Solution>, q: int) -> spec_fn(
    int,
) -> bool {
    |p: int| measured(d, s, p, q)
}

/// The dominance graph of the solutions `s` under the capability `d`: each
/// list holds, in ascending order, the positions that its owner dominates.
pub open spec fn graph_of<D: DominationOrd>(d: &D, s: Seq<D::Solution>) -> Graph {
    Seq::new(s.len(), |p: int| positions_where(dominated_by(d, s, p), s.len() as int))
}

/// The graph of an input holds exactly the measured dominations, and is valid.
pub proof fn lemma_graph_of<D: DominationOrd>(d: &D, s: Seq<D::Solution>)
    ensures
        graph_of(d, s).len() == s.len(),
        valid_graph(graph_of(d, s)),
        forall|p: int, q: int| dominates(graph_of(d, s), p, q) == measured(d, s, p, q),
{
    let g = graph_of(d, s);
    let n = s.len() as int;
    assert forall|p: int, q: int| dominates(g, p, q) == measured(d, s, p, q) by {
        if 0 <= p < n {
            lemma_positions_where_contains(dominated_by(d, s, p), n, q);
        }
    }
    assert forall|p: int| 0 <= p < g.len() implies (#[trigger] g[p]).no_duplicates() && forall|
        k: int,
    |
        0 <= k < g[p].len() ==> 0 <= #[trigger] g[p][k] < g.len() by {
        lemma_positions_where_ascending(dominated_by(d, s, p), n);
        assert forall|k: int| 0 <= k < g[p].len() implies 0 <= #[trigger] g[p][k] < g.len() by {
            assert(g[p].contains(g[p][k]));
            lemma_positions_where_contains(dominated_by(d, s, p), n, g[p][k]);
        }
    }
}

} // verus!
