//! The fronts of a dominance graph, as front extraction defines them: the
//! first front holds what nothing dominates, and each later front holds what
//! the front before it releases.

use crate::domination::DominationOrd;
use crate::graph::{
    count_below, dominates, graph_of, lemma_count_below_agree, lemma_count_below_drop,
    lemma_count_below_zero, lemma_graph_of, lemma_members_where_contains,
    lemma_members_where_no_duplicates, lemma_positions_where_ascending,
    lemma_positions_where_contains, measured, members_where, positions_where, valid_graph, Graph,
};
use crate::order::{acyclic, dominates_at, has_minimal, inhabited_within, minimal_in};
use vstd::prelude::*;
use vstd::seq_lib::lemma_no_dup_in_concat;
use vstd::set_lib::{lemma_int_range, lemma_len_subset, lemma_set_disjoint_lens, set_int_range};

verus! {

/// Every position that dominates `q` is settled.
pub open spec fn ready(g: Graph, settled: Set<int>, q: int) -> bool {
    forall|p: int| #[trigger] dominates(g, p, q) ==> settled.contains(p)
}

/// The test "is ready once `settled` is".
pub open spec fn ready_test(g: Graph, settled: Set<int>) -> spec_fn(int) -> bool {
    |q: int| ready(g, settled, q)
}

/// The test "dominates `q` and is not settled".
pub open spec fn waiting_test(g: Graph, settled: Set<int>, q: int) -> spec_fn(int) -> bool {
    |p: int| dominates(g, p, q) && !settled.contains(p)
}

/// The domination count of `q`: how many positions dominate it and are not
/// settled.
pub open spec fn waiting(g: Graph, settled: Set<int>, q: int) -> nat {
    count_below(waiting_test(g, settled, q), g.len() as int)
}

/// The first front: the positions that nothing dominates, in ascending order.
pub open spec fn first_front(g: Graph) -> Seq<int> {
    positions_where(ready_test(g, Set::empty()), g.len() as int)
}

/// The members of `cur` up to and including place `k`, together with `done`.
pub open spec fn settled_with(done: Set<int>, cur: Seq<int>, k: int) -> Set<int> {
    done + cur.take(k + 1).to_set()
}

/// What the member at place `k` of the front `cur` releases: those it
/// dominates that have no dominator left once it is settled, in the order
/// of its list. `done` holds the positions of the fronts before `cur`.
pub open spec fn released_by(g: Graph, done: Set<int>, cur: Seq<int>, k: int) -> Seq<int> {
    members_where(g[cur[k]], ready_test(g, settled_with(done, cur, k)), g[cur[k]].len() as int)
}

/// What the first `k` members of the front `cur` release, member by member.
pub open spec fn released_upto(g: Graph, done: Set<int>, cur: Seq<int>, k: int) -> Seq<int>
    decreases k,
{
    if k <= 0 {
        Seq::empty()
    } else {
        released_upto(g, done, cur, k - 1) + released_by(g, done, cur, k - 1)
    }
}

/// The front that follows `cur`.
pub open spec fn released(g: Graph, done: Set<int>, cur: Seq<int>) -> Seq<int> {
    released_upto(g, done, cur, cur.len() as int)
}

/// The front of rank `r`, its members in the order in which they come out.
pub open spec fn front_at(g: Graph, r: nat) -> Seq<int>
    decreases r,
{
    if r == 0 {
        first_front(g)
    } else {
        released(g, done_before(g, (r - 1) as nat), front_at(g, (r - 1) as nat))
    }
}

/// The positions of the fronts of rank below `r`.
pub open spec fn done_before(g: Graph, r: nat) -> Set<int>
    decreases r,
{
    if r == 0 {
        Set::empty()
    } else {
        done_before(g, (r - 1) as nat) + front_at(g, (r - 1) as nat).to_set()
    }
}

/// A position is ready exactly when its domination count is zero.
pub proof fn lemma_waiting_zero(g: Graph, settled: Set<int>, q: int)
    ensures
        waiting(g, settled, q) == 0 <==> ready(g, settled, q),
{
    lemma_count_below_zero(waiting_test(g, settled, q), g.len() as int);
    if waiting(g, settled, q) == 0 {
        assert forall|p: int| #[trigger] dominates(g, p, q) implies settled.contains(p) by {
            assert(!waiting_test(g, settled, q)(p));
        }
    }
}

/// Settling `p` lowers by one the count of what it dominates, and leaves
/// every other count as it was.
pub proof fn lemma_waiting_settle(g: Graph, settled: Set<int>, p: int, q: int)
    requires
        0 <= p < g.len(),
        !settled.contains(p),
    ensures
        dominates(g, p, q) ==> waiting(g, settled, q) == waiting(g, settled.insert(p), q) + 1,
        !dominates(g, p, q) ==> waiting(g, settled, q) == waiting(g, settled.insert(p), q),
{
    let before = waiting_test(g, settled, q);
    let after = waiting_test(g, settled.insert(p), q);
    if dominates(g, p, q) {
        lemma_count_below_drop(before, after, g.len() as int, p);
    } else {
        lemma_count_below_agree(before, after, g.len() as int);
    }
}

/// Who is released by the member at place `k`.
pub proof fn lemma_released_by_contains(g: Graph, done: Set<int>, cur: Seq<int>, k: int, q: int)
    ensures
        released_by(g, done, cur, k).contains(q) <==> (g[cur[k]].contains(q) && ready(
            g,
            settled_with(done, cur, k),
            q,
        )),
{
    let list = g[cur[k]];
    lemma_members_where_contains(
        list,
        ready_test(g, settled_with(done, cur, k)),
        list.len() as int,
        q,
    );
}

/// Who is released by the first `k` members.
pub proof fn lemma_released_upto_contains(g: Graph, done: Set<int>, cur: Seq<int>, k: int, q: int)
    ensures
        released_upto(g, done, cur, k).contains(q) <==> exists|j: int|
            0 <= j < k && #[trigger] released_by(g, done, cur, j).contains(q),
    decreases k,
{
    if k > 0 {
        lemma_released_upto_contains(g, done, cur, k - 1, q);
        let head = released_upto(g, done, cur, k - 1);
        let tail = released_by(g, done, cur, k - 1);
        let all = released_upto(g, done, cur, k);
        if all.contains(q) {
            let i = choose|i: int| 0 <= i < all.len() && all[i] == q;
            if i < head.len() {
                assert(head[i] == q);
                assert(head.contains(q));
            } else {
                assert(tail[i - head.len()] == q);
                assert(tail.contains(q));
            }
        }
        if exists|j: int| 0 <= j < k && #[trigger] released_by(g, done, cur, j).contains(q) {
            let j = choose|j: int| 0 <= j < k && #[trigger] released_by(g, done, cur, j).contains(q);
            if j == k - 1 {
                let i = choose|i: int| 0 <= i < tail.len() && tail[i] == q;
                assert(all[head.len() + i] == q);
            } else {
                assert(head.contains(q));
                let i = choose|i: int| 0 <= i < head.len() && head[i] == q;
                assert(all[i] == q);
            }
        }
    }
}

/// A position of the fronts below `r` is in one of them.
pub proof fn lemma_done_before_contains(g: Graph, r: nat, q: int)
    ensures
        done_before(g, r).contains(q) <==> exists|k: nat|
            k < r && #[trigger] front_at(g, k).contains(q),
    decreases r,
{
    if r > 0 {
        lemma_done_before_contains(g, (r - 1) as nat, q);
        if done_before(g, r).contains(q) {
            if !done_before(g, (r - 1) as nat).contains(q) {
                assert(front_at(g, (r - 1) as nat).contains(q));
            }
        }
        if exists|k: nat| k < r && #[trigger] front_at(g, k).contains(q) {
            let k = choose|k: nat| k < r && #[trigger] front_at(g, k).contains(q);
            if k == r - 1 {
                assert(front_at(g, (r - 1) as nat).to_set().contains(q));
            }
        }
    }
}

/// Every member of a front is a position of the graph, and ready once the
/// fronts before it are settled.
pub proof fn lemma_front_members(g: Graph, r: nat, q: int)
    requires
        valid_graph(g),
        front_at(g, r).contains(q),
    ensures
        0 <= q < g.len(),
        ready(g, done_before(g, r), q),
    decreases r,
{
    if r == 0 {
        lemma_positions_where_contains(ready_test(g, Set::empty()), g.len() as int, q);
    } else {
        let done = done_before(g, (r - 1) as nat);
        let cur = front_at(g, (r - 1) as nat);
        lemma_released_upto_contains(g, done, cur, cur.len() as int, q);
        let k = choose|k: int|
            0 <= k < cur.len() && #[trigger] released_by(g, done, cur, k).contains(q);
        lemma_released_by_contains(g, done, cur, k, q);
        assert(cur.contains(cur[k]));
        lemma_front_members(g, (r - 1) as nat, cur[k]);
        let list = g[cur[k]];
        let i = choose|i: int| 0 <= i < list.len() && list[i] == q;
        assert(0 <= list[i] < g.len());
        assert forall|p: int| #[trigger] dominates(g, p, q) implies done_before(g, r).contains(
            p,
        ) by {
            assert(settled_with(done, cur, k).contains(p));
            if !done.contains(p) {
                let t = cur.take(k + 1);
                let a = choose|a: int| 0 <= a < t.len() && t[a] == p;
                assert(cur[a] == p);
                assert(cur.contains(p));
            }
        }
    }
}

/// No member of a front is in a front before it.
pub proof fn lemma_front_fresh(g: Graph, r: nat, q: int)
    requires
        valid_graph(g),
        front_at(g, r).contains(q),
    ensures
        !done_before(g, r).contains(q),
    decreases r,
{
    if r > 0 && done_before(g, r).contains(q) {
        let done = done_before(g, (r - 1) as nat);
        let cur = front_at(g, (r - 1) as nat);
        lemma_released_upto_contains(g, done, cur, cur.len() as int, q);
        let k = choose|k: int|
            0 <= k < cur.len() && #[trigger] released_by(g, done, cur, k).contains(q);
        lemma_released_by_contains(g, done, cur, k, q);
        assert(cur.contains(cur[k]));
        lemma_front_members(g, (r - 1) as nat, cur[k]);
        assert(dominates(g, cur[k], q));
        lemma_done_before_contains(g, r, q);
        let e = choose|e: nat| e < r && #[trigger] front_at(g, e).contains(q);
        lemma_front_members(g, e, q);
        assert(done_before(g, e).contains(cur[k]));
        lemma_done_before_grows(g, e, (r - 1) as nat);
        lemma_front_fresh(g, (r - 1) as nat, cur[k]);
    }
}

/// The settled positions only grow with the rank.
pub proof fn lemma_done_before_grows(g: Graph, a: nat, b: nat)
    requires
        a <= b,
    ensures
        done_before(g, a).subset_of(done_before(g, b)),
    decreases b,
{
    if a < b {
        lemma_done_before_grows(g, a, (b - 1) as nat);
    }
}

/// No position comes twice in a front.
pub proof fn lemma_front_no_duplicates(g: Graph, r: nat)
    requires
        valid_graph(g),
    ensures
        front_at(g, r).no_duplicates(),
    decreases r,
{
    if r == 0 {
        lemma_positions_where_ascending(ready_test(g, Set::empty()), g.len() as int);
    } else {
        lemma_front_no_duplicates(g, (r - 1) as nat);
        let cur = front_at(g, (r - 1) as nat);
        lemma_released_upto_no_duplicates(g, (r - 1) as nat, cur.len() as int);
    }
}

/// What the first `k` members of a front release holds no position twice.
pub proof fn lemma_released_upto_no_duplicates(g: Graph, r: nat, k: int)
    requires
        valid_graph(g),
        front_at(g, r).no_duplicates(),
        k <= front_at(g, r).len(),
    ensures
        released_upto(g, done_before(g, r), front_at(g, r), k).no_duplicates(),
    decreases k,
{
    if k > 0 {
        let done = done_before(g, r);
        let cur = front_at(g, r);
        lemma_released_upto_no_duplicates(g, r, k - 1);
        let head = released_upto(g, done, cur, k - 1);
        let tail = released_by(g, done, cur, k - 1);
        assert(cur.contains(cur[k - 1]));
        lemma_front_members(g, r, cur[k - 1]);
        lemma_front_fresh(g, r, cur[k - 1]);
        let list = g[cur[k - 1]];
        lemma_members_where_no_duplicates(
            list,
            ready_test(g, settled_with(done, cur, k - 1)),
            list.len() as int,
        );
        assert forall|i: int, j: int| 0 <= i < head.len() && 0 <= j < tail.len() implies head[i]
            != tail[j] by {
            if head[i] == tail[j] {
                let q = head[i];
                assert(head.contains(q));
                assert(tail.contains(q));
                lemma_released_upto_contains(g, done, cur, k - 1, q);
                let e = choose|e: int|
                    0 <= e < k - 1 && #[trigger] released_by(g, done, cur, e).contains(q);
                lemma_released_by_contains(g, done, cur, e, q);
                lemma_released_by_contains(g, done, cur, k - 1, q);
                assert(dominates(g, cur[k - 1], q));
                assert(settled_with(done, cur, e).contains(cur[k - 1]));
                let t = cur.take(e + 1);
                let a = choose|a: int| 0 <= a < t.len() && t[a] == cur[k - 1];
                assert(cur[a] == cur[k - 1]);
            }
        }
        lemma_no_dup_in_concat(head, tail);
    }
}

/// A position is in one front at most.
pub proof fn lemma_fronts_disjoint(g: Graph, a: nat, b: nat, q: int)
    requires
        valid_graph(g),
        front_at(g, a).contains(q),
        front_at(g, b).contains(q),
    ensures
        a == b,
{
    if a < b {
        lemma_done_before_contains(g, b, q);
        lemma_front_fresh(g, b, q);
    } else if b < a {
        lemma_done_before_contains(g, a, q);
        lemma_front_fresh(g, a, q);
    }
}

/// How many positions the fronts of rank below `r` hold together.
pub open spec fn covered(g: Graph, r: nat) -> nat
    decreases r,
{
    if r == 0 {
        0
    } else {
        covered(g, (r - 1) as nat) + front_at(g, (r - 1) as nat).len()
    }
}

/// The fronts below `r` hold as many positions as are settled, and no more
/// than the graph has.
pub proof fn lemma_covered(g: Graph, r: nat)
    requires
        valid_graph(g),
    ensures
        done_before(g, r).finite(),
        done_before(g, r).len() == covered(g, r),
        covered(g, r) <= g.len(),
    decreases r,
{
    let all = set_int_range(0, g.len() as int);
    lemma_int_range(0, g.len() as int);
    if r > 0 {
        let done = done_before(g, (r - 1) as nat);
        let cur = front_at(g, (r - 1) as nat);
        lemma_covered(g, (r - 1) as nat);
        lemma_front_no_duplicates(g, (r - 1) as nat);
        cur.unique_seq_to_set();
        vstd::seq_lib::seq_to_set_is_finite(cur);
        assert forall|q: int| cur.to_set().contains(q) implies !done.contains(q) by {
            lemma_front_fresh(g, (r - 1) as nat, q);
        }
        assert(done.disjoint(cur.to_set()));
        lemma_set_disjoint_lens(done, cur.to_set());
    }
    assert forall|q: int| done_before(g, r).contains(q) implies all.contains(q) by {
        lemma_done_before_contains(g, r, q);
        let k = choose|k: nat| k < r && #[trigger] front_at(g, k).contains(q);
        lemma_front_members(g, k, q);
    }
    lemma_len_subset(done_before(g, r), all);
}

/// While every front so far has a member, there are at least as many
/// settled positions as fronts.
pub proof fn lemma_rank_covered(g: Graph, r: nat)
    requires
        forall|k: nat| k < r ==> (#[trigger] front_at(g, k)).len() > 0,
    ensures
        r <= covered(g, r),
    decreases r,
{
    if r > 0 {
        lemma_rank_covered(g, (r - 1) as nat);
    }
}

/// A front with a member, after fronts with members, has a rank below the
/// number of positions.
pub proof fn lemma_rank_below_len(g: Graph, r: nat)
    requires
        valid_graph(g),
        forall|k: nat| k <= r ==> (#[trigger] front_at(g, k)).len() > 0,
    ensures
        r < g.len(),
{
    lemma_rank_covered(g, r + 1);
    lemma_covered(g, r + 1);
}

/// The place of the last member among the first `k` of `cur` that
/// dominates `q`.
proof fn last_dominator(g: Graph, cur: Seq<int>, q: int, k: int) -> (j: int)
    requires
        k <= cur.len(),
        exists|a: int| 0 <= a < k && dominates(g, #[trigger] cur[a], q),
    ensures
        0 <= j < k,
        dominates(g, cur[j], q),
        forall|a: int| j < a < k ==> !dominates(g, #[trigger] cur[a], q),
    decreases k,
{
    if dominates(g, cur[k - 1], q) {
        k - 1
    } else {
        let a = choose|a: int| 0 <= a < k && dominates(g, #[trigger] cur[a], q);
        assert(a < k - 1);
        last_dominator(g, cur, q, k - 1)
    }
}

/// A position that is ready, and in no front before, is in the front of
/// rank `r`.
pub proof fn lemma_ready_joins(g: Graph, r: nat, q: int)
    requires
        valid_graph(g),
        0 <= q < g.len(),
        ready(g, done_before(g, r), q),
        !done_before(g, r).contains(q),
    ensures
        front_at(g, r).contains(q),
    decreases r,
{
    if r == 0 {
        lemma_positions_where_contains(ready_test(g, Set::empty()), g.len() as int, q);
    } else {
        let done = done_before(g, (r - 1) as nat);
        let cur = front_at(g, (r - 1) as nat);
        if !exists|a: int| 0 <= a < cur.len() && dominates(g, #[trigger] cur[a], q) {
            assert forall|p: int| #[trigger] dominates(g, p, q) implies done.contains(p) by {
                assert(done_before(g, r).contains(p));
                if !done.contains(p) {
                    let a = choose|a: int| 0 <= a < cur.len() && cur[a] == p;
                    assert(dominates(g, cur[a], q));
                }
            }
            lemma_ready_joins(g, (r - 1) as nat, q);
            assert(cur.to_set().contains(q));
        } else {
            let j = last_dominator(g, cur, q, cur.len() as int);
            assert forall|p: int| #[trigger] dominates(g, p, q) implies settled_with(
                done,
                cur,
                j,
            ).contains(p) by {
                assert(done_before(g, r).contains(p));
                if !done.contains(p) {
                    let a = choose|a: int| 0 <= a < cur.len() && cur[a] == p;
                    assert(dominates(g, cur[a], q));
                    assert(a <= j);
                    assert(cur.take(j + 1)[a] == p);
                }
            }
            lemma_released_by_contains(g, done, cur, j, q);
            lemma_released_upto_contains(g, done, cur, cur.len() as int, q);
        }
    }
}

/// The members of a front are the positions in no front before it whose
/// domination count, with those fronts settled, is zero.
pub proof fn lemma_front_is_zero_count(g: Graph, r: nat, q: int)
    requires
        valid_graph(g),
    ensures
        front_at(g, r).contains(q) <==> (0 <= q < g.len() && !done_before(g, r).contains(q)
            && waiting(g, done_before(g, r), q) == 0),
{
    lemma_waiting_zero(g, done_before(g, r), q);
    if front_at(g, r).contains(q) {
        lemma_front_members(g, r, q);
        lemma_front_fresh(g, r, q);
    } else if 0 <= q < g.len() && !done_before(g, r).contains(q) && ready(
        g,
        done_before(g, r),
        q,
    ) {
        lemma_ready_joins(g, r, q);
    }
}

/// Once a front of a graph without cycles is empty, every position is in a
/// front before it.
pub proof fn lemma_empty_front_ends(g: Graph, r: nat)
    requires
        valid_graph(g),
        acyclic(g),
        front_at(g, r).len() == 0,
    ensures
        forall|q: int| 0 <= q < g.len() ==> done_before(g, r).contains(q),
{
    let done = done_before(g, r);
    let left = Set::new(|x: int| 0 <= x < g.len() && !done.contains(x));
    if exists|q: int| 0 <= q < g.len() && !done.contains(q) {
        let q = choose|q: int| 0 <= q < g.len() && !done.contains(q);
        assert(left.contains(q));
        assert(inhabited_within(g, left));
        assert(has_minimal(g, left));
        let m = choose|m: int| minimal_in(g, left, m);
        assert forall|p: int| #[trigger] dominates(g, p, m) implies done.contains(p) by {
            if !done.contains(p) {
                assert(left.contains(p));
            }
        }
        lemma_ready_joins(g, r, m);
    }
}

/// After an empty front every front is empty.
pub proof fn lemma_empty_front_stays(g: Graph, r: nat, k: nat)
    requires
        front_at(g, r).len() == 0,
        r <= k,
    ensures
        front_at(g, k).len() == 0,
    decreases k,
{
    if r < k {
        lemma_empty_front_stays(g, r, (k - 1) as nat);
    }
}

/// Rank consistency: a member of a front is dominated by no member of the
/// same or of a later front.
pub proof fn lemma_rank_consistency(g: Graph, a: nat, b: nat, i: int, j: int)
    requires
        valid_graph(g),
        a <= b,
        front_at(g, a).contains(i),
        front_at(g, b).contains(j),
    ensures
        !dominates(g, j, i),
{
    if dominates(g, j, i) {
        lemma_front_members(g, a, i);
        assert(done_before(g, a).contains(j));
        lemma_done_before_grows(g, a, b);
        lemma_front_fresh(g, b, j);
    }
}

/// Rank consistency among solutions: what the sort measured never has a
/// member of a front dominated by a member of a later front. So the later
/// one does not dominate the earlier one, unless the capability contradicts
/// itself on the two and has each dominate the other.
pub proof fn lemma_later_front_never_dominates<D: DominationOrd>(
    d: &D,
    s: Seq<D::Solution>,
    a: nat,
    b: nat,
    i: int,
    j: int,
)
    requires
        a < b,
        front_at(graph_of(d, s), a).contains(i),
        front_at(graph_of(d, s), b).contains(j),
    ensures
        !measured(d, s, j, i),
        !dominates_at(d, s, j, i) || (i < j && dominates_at(d, s, i, j)),
{
    let g = graph_of(d, s);
    lemma_graph_of(d, s);
    lemma_rank_consistency(g, a, b, i, j);
    lemma_front_members(g, a, i);
    lemma_front_members(g, b, j);
    assert(!dominates(g, j, i));
    assert(!measured(d, s, j, i));
    if i == j {
        lemma_fronts_disjoint(g, a, b, i);
    }
}

/// Incomparability within a front: of two distinct members of one front
/// the capability finds that neither dominates the other.
pub proof fn lemma_front_incomparable<D: DominationOrd>(
    d: &D,
    s: Seq<D::Solution>,
    r: nat,
    i: int,
    j: int,
)
    requires
        front_at(graph_of(d, s), r).contains(i),
        front_at(graph_of(d, s), r).contains(j),
        i != j,
    ensures
        !dominates_at(d, s, i, j),
        !dominates_at(d, s, j, i),
{
    let g = graph_of(d, s);
    lemma_graph_of(d, s);
    lemma_rank_consistency(g, r, r, i, j);
    lemma_rank_consistency(g, r, r, j, i);
    lemma_front_members(g, r, i);
    lemma_front_members(g, r, j);
    assert(!dominates(g, j, i) && !dominates(g, i, j));
    assert(!measured(d, s, j, i) && !measured(d, s, i, j));
}

} // verus!
