//! The non-dominated sort with machine-word positions: the front cursor,
//! and the engine that hands the fronts out one by one or collects them.

use crate::domination::DominationOrd;
use crate::graph::{graph_of, valid_graph, Graph};
use crate::order::acyclic;
use crate::peeling::{
    covered, done_before, front_at, lemma_covered, lemma_done_before_contains,
    lemma_empty_front_ends, lemma_front_members, lemma_front_no_duplicates,
    lemma_fronts_disjoint, lemma_rank_below_len, lemma_rank_covered,
};
use crate::sort::positions_of;
use vstd::prelude::*;

verus! {

/// A member of a front.
pub struct SolutionWithIndex {
    /// The index that the solution has within the `solutions` array.
    pub index: usize,
}

/// A pareto front as the engine yields it.
pub struct Front {
    /// The first front has rank 0, second rank 1 and so on.
    pub rank: usize,
    /// The solutions within this front.
    pub solutions: Vec<SolutionWithIndex>,
}

impl Front {
    /// The positions of the members of this front, in order.
    pub open spec fn indices(&self) -> Seq<int> {
        Seq::new(self.solutions@.len(), |k: int| self.solutions@[k].index as int)
    }

    /// The indices of the solutions of this front, in order.
    pub fn solutions_indices_only(&self) -> (r: Vec<usize>)
        ensures
            r@ == Seq::new(self.solutions@.len(), |k: int| self.solutions@[k].index),
    {
        let mut r: Vec<usize> = Vec::new();
        let mut k: usize = 0;
        while k < self.solutions.len()
            invariant
                k <= self.solutions@.len(),
                r@ == Seq::new(k as nat, |a: int| self.solutions@[a].index),
            decreases self.solutions@.len() - k,
        {
            r.push(self.solutions[k].index);
            assert(r@ == Seq::new((k + 1) as nat, |a: int| self.solutions@[a].index));
            k += 1;
        }
        r
    }
}

/// A front of the non-dominated sort of a sequence of solutions, from which
/// the next front is reached.
pub struct NonDominatedSortFront<'a, S> {
    front: crate::sort::Front<'a, S, usize>,
}

impl<'a, S> NonDominatedSortFront<'a, S> {
    /// The dominance graph of the solutions.
    pub closed spec fn graph(&self) -> Graph {
        self.front.graph()
    }

    /// The rank of this front.
    pub closed spec fn spec_rank(&self) -> nat {
        self.front.spec_rank()
    }

    /// The positions of the members of this front, in order.
    pub closed spec fn indices(&self) -> Seq<int> {
        self.front.indices()
    }

    /// The solutions that are sorted.
    pub closed spec fn input(&self) -> Seq<S> {
        self.front.input()
    }

    /// The domination counts agree with the rank.
    pub closed spec fn counts_wf(&self) -> bool {
        self.front.counts_wf()
    }

    /// The graph is valid and has a position for each solution, and the
    /// members are those of the front of this rank.
    pub open spec fn wf(&self) -> bool {
        &&& self.counts_wf()
        &&& valid_graph(self.graph())
        &&& self.graph().len() == self.input().len()
        &&& self.graph().len() <= usize::MAX
        &&& self.indices() == front_at(self.graph(), self.spec_rank())
    }

    /// The rank of this front: 0 for the first front, 1 for the second and
    /// so on.
    pub fn rank(&self) -> (r: usize)
        ensures
            r == self.spec_rank(),
    {
        self.front.rank()
    }

    /// Whether this front has no member, which is so once the fronts are
    /// exhausted.
    pub fn is_empty(&self) -> (r: bool)
        ensures
            r == (self.indices().len() == 0),
    {
        self.front.is_empty()
    }

    /// The members of this front, in the order in which they came out.
    pub fn current_front_indices(&self) -> (r: &[usize])
        ensures
            positions_of(r@) == self.indices(),
    {
        self.front.current_front_indices()
    }

    /// Replaces this front by the one that follows it.
    fn advance(&mut self)
        requires
            old(self).wf(),
            old(self).spec_rank() < usize::MAX,
        ensures
            final(self).wf(),
            final(self).graph() == old(self).graph(),
            final(self).input() == old(self).input(),
            final(self).spec_rank() == old(self).spec_rank() + 1,
    {
        self.front.advance();
    }

    /// The front that follows this one. After an empty front every front is
    /// empty. The rank must not be the largest that `usize` holds.
    pub fn next_front(self) -> (next: Self)
        requires
            self.wf(),
            self.spec_rank() < usize::MAX,
        ensures
            next.wf(),
            next.graph() == self.graph(),
            next.input() == self.input(),
            next.spec_rank() == self.spec_rank() + 1,
    {
        NonDominatedSortFront { front: self.front.next_front() }
    }
}

/// Determinism: two fronts of the same rank over the same dominance graph
/// hold the same members in the same order.
pub proof fn lemma_sort_front_determined<S>(
    one: &NonDominatedSortFront<S>,
    other: &NonDominatedSortFront<S>,
)
    requires
        one.wf(),
        other.wf(),
        one.graph() == other.graph(),
        one.spec_rank() == other.spec_rank(),
    ensures
        one.indices() == other.indices(),
{
}

/// Perform a non-dominated sort of `solutions`. Returns the first pareto
/// front, from which the others are reached by `next_front`.
pub fn non_dominated_sort<'a, S, D>(solutions: &'a [S], domination: &D) -> (front:
    NonDominatedSortFront<'a, S>) where D: DominationOrd<Solution = S>
    ensures
        front.wf(),
        front.spec_rank() == 0,
        front.input() == solutions@,
        front.graph() == graph_of(domination, solutions@),
{
    assert(solutions@.len() == solutions.len());
    NonDominatedSortFront { front: crate::sort::non_dominated_sort(solutions, domination) }
}

/// The total number of solutions in `fronts`.
pub open spec fn solutions_in(fronts: Seq<Front>) -> nat
    decreases fronts.len(),
{
    if fronts.len() == 0 {
        0
    } else {
        solutions_in(fronts.drop_last()) + fronts.last().solutions@.len()
    }
}

/// `fronts` are the fronts of `g` from rank `first` on, one after the
/// other, and each has a member.
pub open spec fn is_run(g: Graph, first: nat, fronts: Seq<Front>) -> bool {
    forall|k: int|
        0 <= k < fronts.len() ==> {
            &&& (#[trigger] fronts[k]).rank == first + k
            &&& fronts[k].indices() == front_at(g, (first + k) as nat)
            &&& fronts[k].indices().len() > 0
        }
}

/// `fronts` are all the fronts of `g` from rank `first` on that have a
/// member.
pub open spec fn collects_all(g: Graph, first: nat, fronts: Seq<Front>) -> bool {
    &&& is_run(g, first, fronts)
    &&& front_at(g, first + fronts.len()).len() == 0
}

/// `fronts` are the fronts of `g` from rank `first` on, up to and including
/// the first with which they hold `max_solutions` solutions or more; where
/// they never hold as many, all that have a member.
pub open spec fn collects_until(
    g: Graph,
    first: nat,
    max_solutions: nat,
    fronts: Seq<Front>,
) -> bool {
    &&& is_run(g, first, fronts)
    &&& forall|m: int|
        0 < m < fronts.len() ==> solutions_in(#[trigger] fronts.take(m)) < max_solutions
    &&& {
        ||| fronts.len() > 0 && solutions_in(fronts) >= max_solutions
        ||| front_at(g, first + fronts.len()).len() == 0
    }
}

/// The non-dominated sort of a sequence of solutions, which yields the
/// pareto fronts one after the other.
pub struct NonDominatedSort<'a, S> {
    front: NonDominatedSortFront<'a, S>,
}

impl<'a, S> NonDominatedSort<'a, S> {
    /// The dominance graph of the solutions.
    pub closed spec fn graph(&self) -> Graph {
        self.front.graph()
    }

    /// The rank of the front that comes next.
    pub closed spec fn spec_rank(&self) -> nat {
        self.front.spec_rank()
    }

    /// The solutions that are sorted.
    pub closed spec fn input(&self) -> Seq<S> {
        self.front.input()
    }

    /// The front in hand is well-formed.
    pub closed spec fn front_wf(&self) -> bool {
        self.front.wf()
    }

    /// Every front that was yielded had a member.
    pub open spec fn wf(&self) -> bool {
        &&& self.front_wf()
        &&& valid_graph(self.graph())
        &&& self.graph().len() == self.input().len()
        &&& self.graph().len() <= usize::MAX
        &&& forall|k: nat| k < self.spec_rank() ==> (#[trigger] front_at(self.graph(), k)).len() > 0
    }

    /// Perform a non-dominated sort of `solutions`.
    ///
    /// Each pareto front (the indices of the `solutions`) can be obtained by
    /// calling `next()`.
    pub fn new<D>(solutions: &'a [S], domination: &D) -> (sort: Self) where
        D: DominationOrd<Solution = S>,

        ensures
            sort.wf(),
            sort.spec_rank() == 0,
            sort.input() == solutions@,
            sort.graph() == graph_of(domination, solutions@),
    {
        NonDominatedSort { front: non_dominated_sort(solutions, domination) }
    }

    /// Return the next pareto front, or `None` once every front that has a
    /// member was returned.
    pub fn next(&mut self) -> (r: Option<Front>)
        requires
            old(self).wf(),
        ensures
            final(self).wf(),
            final(self).graph() == old(self).graph(),
            final(self).input() == old(self).input(),
            match r {
                Some(front) => {
                    &&& front.rank == old(self).spec_rank()
                    &&& front.indices() == front_at(old(self).graph(), old(self).spec_rank())
                    &&& front.indices().len() > 0
                    &&& final(self).spec_rank() == old(self).spec_rank() + 1
                },
                None => {
                    &&& front_at(old(self).graph(), old(self).spec_rank()).len() == 0
                    &&& final(self).spec_rank() == old(self).spec_rank()
                },
            },
    {
        if self.front.is_empty() {
            return None;
        }
        let rank = self.front.rank();
        let indices = self.front.current_front_indices();
        let mut solutions: Vec<SolutionWithIndex> = Vec::new();
        let mut k: usize = 0;
        while k < indices.len()
            invariant
                k <= indices@.len(),
                solutions@.len() == k,
                forall|a: int| 0 <= a < k ==> (#[trigger] solutions@[a]).index == indices@[a],
            decreases indices@.len() - k,
        {
            solutions.push(SolutionWithIndex { index: indices[k] });
            k += 1;
        }
        let front = Front { rank, solutions };
        proof {
            let g = self.graph();
            let r = self.spec_rank();
            assert(front.indices() == positions_of(indices@));
            lemma_rank_below_len(g, r);
        }
        self.front.advance();
        Some(front)
    }

    /// Returns an array containing all pareto fronts.
    pub fn pareto_fronts(self) -> (fronts: Vec<Front>)
        requires
            self.wf(),
        ensures
            collects_all(self.graph(), self.spec_rank(), fronts@),
    {
        let mut sort = self;
        let mut fronts: Vec<Front> = Vec::new();
        loop
            invariant
                sort.wf(),
                sort.graph() == self.graph(),
                sort.spec_rank() == self.spec_rank() + fronts@.len(),
                is_run(self.graph(), self.spec_rank(), fronts@),
            decreases self.graph().len() - sort.spec_rank(),
        {
            match sort.next() {
                Some(front) => {
                    proof {
                        lemma_rank_covered(sort.graph(), sort.spec_rank());
                        lemma_covered(sort.graph(), sort.spec_rank());
                    }
                    fronts.push(front);
                },
                None => {
                    return fronts;
                },
            }
        }
    }

    /// Returns an array containing the first pareto fronts, until
    /// `max_solutions` have been found. Note that always the whole fronts are
    /// returned, i.e. the number of solutions returned may be higher.
    pub fn pareto_fronts_stop_at(self, max_solutions: usize) -> (fronts: Vec<Front>)
        requires
            self.wf(),
        ensures
            collects_until(self.graph(), self.spec_rank(), max_solutions as nat, fronts@),
    {
        let mut sort = self;
        let mut found_solutions: usize = 0;
        let mut fronts: Vec<Front> = Vec::new();
        loop
            invariant
                sort.wf(),
                sort.graph() == self.graph(),
                sort.spec_rank() == self.spec_rank() + fronts@.len(),
                is_run(self.graph(), self.spec_rank(), fronts@),
                found_solutions == solutions_in(fronts@),
                found_solutions + covered(self.graph(), self.spec_rank()) == covered(
                    self.graph(),
                    sort.spec_rank(),
                ),
                forall|m: int|
                    0 < m <= fronts@.len() ==> solutions_in(#[trigger] fronts@.take(m))
                        < max_solutions,
            decreases self.graph().len() - sort.spec_rank(),
        {
            let ghost before = fronts@;
            match sort.next() {
                Some(front) => {
                    proof {
                        lemma_rank_covered(sort.graph(), sort.spec_rank());
                        lemma_covered(sort.graph(), sort.spec_rank());
                    }
                    found_solutions += front.solutions.len();
                    fronts.push(front);
                    proof {
                        assert(fronts@.drop_last() == before);
                        assert forall|m: int| 0 < m < fronts@.len() implies solutions_in(
                            #[trigger] fronts@.take(m),
                        ) < max_solutions by {
                            assert(fronts@.take(m) == before.take(m));
                        }
                        assert(fronts@.take(fronts@.len() as int) == fronts@);
                    }
                    if found_solutions >= max_solutions {
                        return fronts;
                    }
                },
                None => {
                    proof {
                        if fronts@.len() > 0 {
                            assert(fronts@.take(fronts@.len() as int) == fronts@);
                        }
                    }
                    return fronts;
                },
            }
        }
    }
}

/// Position `q` is a member of one of `fronts`.
pub open spec fn occurs_in(fronts: Seq<Front>, q: int) -> bool {
    exists|k: int| 0 <= k < fronts.len() && #[trigger] fronts[k].indices().contains(q)
}

/// A run of fronts holds as many solutions as its ranks cover.
pub proof fn lemma_run_count(g: Graph, first: nat, fronts: Seq<Front>)
    requires
        is_run(g, first, fronts),
    ensures
        solutions_in(fronts) + covered(g, first) == covered(g, first + fronts.len()),
    decreases fronts.len(),
{
    if fronts.len() > 0 {
        let rest = fronts.drop_last();
        assert forall|k: int| 0 <= k < rest.len() implies {
            &&& (#[trigger] rest[k]).rank == first + k
            &&& rest[k].indices() == front_at(g, (first + k) as nat)
            &&& rest[k].indices().len() > 0
        } by {
            assert(rest[k] == fronts[k]);
        }
        lemma_run_count(g, first, rest);
        assert(fronts.last().indices().len() == fronts.last().solutions@.len());
    }
}

/// Partition: where the dominance graph has no cycle, the fronts of a whole
/// sort hold every position, each in one front and once in it, and hold
/// nothing else.
pub proof fn lemma_pareto_fronts_partition(g: Graph, fronts: Seq<Front>)
    requires
        valid_graph(g),
        acyclic(g),
        collects_all(g, 0, fronts),
    ensures
        forall|q: int| 0 <= q < g.len() ==> #[trigger] occurs_in(fronts, q),
        forall|k: int, q: int|
            0 <= k < fronts.len() && (#[trigger] fronts[k].indices().contains(q)) ==> 0 <= q
                < g.len(),
        forall|k: int| 0 <= k < fronts.len() ==> (#[trigger] fronts[k]).indices().no_duplicates(),
        forall|k: int, m: int, q: int|
            0 <= k < fronts.len() && 0 <= m < fronts.len() && (
            #[trigger] fronts[k].indices().contains(q)) && (#[trigger] fronts[m].indices().contains(
                q,
            )) ==> k == m,
        solutions_in(fronts) == g.len(),
{
    let n = fronts.len();
    lemma_empty_front_ends(g, n);
    assert forall|q: int| 0 <= q < g.len() implies #[trigger] occurs_in(fronts, q) by {
        lemma_done_before_contains(g, n, q);
        let r = choose|r: nat| r < n && #[trigger] front_at(g, r).contains(q);
        assert(fronts[r as int].indices().contains(q));
    }
    assert forall|k: int, q: int|
        0 <= k < fronts.len() && (#[trigger] fronts[k].indices().contains(q)) implies 0 <= q
        < g.len() by {
        lemma_front_members(g, k as nat, q);
    }
    assert forall|k: int| 0 <= k < fronts.len() implies (
    #[trigger] fronts[k]).indices().no_duplicates() by {
        lemma_front_no_duplicates(g, k as nat);
    }
    assert forall|k: int, m: int, q: int|
        0 <= k < fronts.len() && 0 <= m < fronts.len() && (#[trigger] fronts[k].indices().contains(
            q,
        )) && (#[trigger] fronts[m].indices().contains(q)) implies k == m by {
        lemma_fronts_disjoint(g, k as nat, m as nat, q);
    }
    lemma_run_count(g, 0, fronts);
    lemma_covered(g, n);
    let all = vstd::set_lib::set_int_range(0, g.len() as int);
    vstd::set_lib::lemma_int_range(0, g.len() as int);
    assert forall|q: int| done_before(g, n).contains(q) implies all.contains(q) by {
        lemma_done_before_contains(g, n, q);
        let r = choose|r: nat| r < n && #[trigger] front_at(g, r).contains(q);
        lemma_front_members(g, r, q);
    }
    assert(done_before(g, n) =~= all);
}

/// Determinism: the fronts of a sort are fixed by the dominance graph and
/// the rank at which collecting begins, in number, rank, members and the
/// order of the members.
pub proof fn lemma_pareto_fronts_determined(
    g: Graph,
    first: nat,
    one: Seq<Front>,
    other: Seq<Front>,
)
    requires
        collects_all(g, first, one),
        collects_all(g, first, other),
    ensures
        one.len() == other.len(),
        forall|k: int|
            0 <= k < one.len() ==> (#[trigger] one[k]).rank == other[k].rank && one[k].indices()
                == other[k].indices(),
{
    if one.len() < other.len() {
        assert(other[one.len() as int].indices().len() > 0);
    } else if other.len() < one.len() {
        assert(one[other.len() as int].indices().len() > 0);
    }
}

/// Determinism of the early stop: the fronts collected up to a number of
/// solutions are fixed by the dominance graph, the rank at which collecting
/// begins and that number.
pub proof fn lemma_stop_at_determined(
    g: Graph,
    first: nat,
    max_solutions: nat,
    one: Seq<Front>,
    other: Seq<Front>,
)
    requires
        collects_until(g, first, max_solutions, one),
        collects_until(g, first, max_solutions, other),
    ensures
        one.len() == other.len(),
        forall|k: int|
            0 <= k < one.len() ==> (#[trigger] one[k]).rank == other[k].rank && one[k].indices()
                == other[k].indices(),
{
    lemma_stops_short(g, first, max_solutions, one, other);
    lemma_stops_short(g, first, max_solutions, other, one);
}

/// No run of fronts that stops at `max_solutions` is longer than another.
proof fn lemma_stops_short(
    g: Graph,
    first: nat,
    max_solutions: nat,
    short: Seq<Front>,
    long: Seq<Front>,
)
    requires
        collects_until(g, first, max_solutions, short),
        is_run(g, first, long),
        forall|m: int| 0 < m < long.len() ==> solutions_in(#[trigger] long.take(m)) < max_solutions,
    ensures
        long.len() <= short.len(),
{
    let m = short.len() as int;
    if 0 < m < long.len() {
        assert(long[m].indices().len() > 0);
        let head = long.take(m);
        assert forall|k: int| 0 <= k < head.len() implies {
            &&& (#[trigger] head[k]).rank == first + k
            &&& head[k].indices() == front_at(g, (first + k) as nat)
            &&& head[k].indices().len() > 0
        } by {
            assert(head[k] == long[k]);
        }
        lemma_run_count(g, first, head);
        lemma_run_count(g, first, short);
    } else if m < long.len() {
        assert(long[0].indices().len() > 0);
    }
}

/// Early stop: the fronts collected up to `max_solutions` are the first of
/// all the fronts, each whole and as it is there; and they hold
/// `max_solutions` or more, unless all the fronts together hold fewer, in
/// which case they are all the fronts.
pub proof fn lemma_stop_at_is_prefix(
    g: Graph,
    first: nat,
    max_solutions: nat,
    part: Seq<Front>,
    full: Seq<Front>,
)
    requires
        collects_until(g, first, max_solutions, part),
        collects_all(g, first, full),
    ensures
        part.len() <= full.len(),
        forall|k: int|
            0 <= k < part.len() ==> (#[trigger] part[k]).rank == full[k].rank && part[k].indices()
                == full[k].indices(),
        solutions_in(part) >= max_solutions || part.len() == full.len(),
        solutions_in(full) >= max_solutions ==> solutions_in(part) >= max_solutions,
{
    if full.len() < part.len() {
        assert(part[full.len() as int].indices().len() > 0);
    }
    if !(part.len() > 0 && solutions_in(part) >= max_solutions) {
        if part.len() < full.len() {
            assert(full[part.len() as int].indices().len() > 0);
        }
        lemma_run_count(g, first, part);
        lemma_run_count(g, first, full);
    }
}

/// Early stop on a dominance graph without cycles: a sort from the first
/// front on yields `max_solutions` solutions or more where there are as many
/// positions, and all the fronts where there are fewer.
pub proof fn lemma_stop_at_reaches(g: Graph, max_solutions: nat, part: Seq<Front>)
    requires
        valid_graph(g),
        acyclic(g),
        collects_until(g, 0, max_solutions, part),
    ensures
        max_solutions <= g.len() ==> solutions_in(part) >= max_solutions,
        max_solutions > g.len() ==> collects_all(g, 0, part),
{
    lemma_run_count(g, 0, part);
    lemma_covered(g, part.len());
    if !(part.len() > 0 && solutions_in(part) >= max_solutions) {
        lemma_pareto_fronts_partition(g, part);
    }
}

/// The sort of no solutions has no front.
pub proof fn lemma_empty_input<D: DominationOrd>(
    d: &D,
    s: Seq<D::Solution>,
    fronts: Seq<Front>,
)
    requires
        s.len() == 0,
        collects_all(graph_of(d, s), 0, fronts),
    ensures
        fronts.len() == 0,
{
    if fronts.len() > 0 {
        assert(fronts[0].indices().len() > 0);
    }
}

/// The sort of a single solution has one front, of rank 0, which holds
/// position 0.
pub proof fn lemma_single_input<D: DominationOrd>(
    d: &D,
    s: Seq<D::Solution>,
    fronts: Seq<Front>,
)
    requires
        s.len() == 1,
        collects_all(graph_of(d, s), 0, fronts),
    ensures
        fronts.len() == 1,
        fronts[0].rank == 0,
        fronts[0].indices() == seq![0int],
{
    let g = graph_of(d, s);
    crate::graph::lemma_graph_of(d, s);
    assert(!crate::graph::measured(d, s, 0, 0));
    assert(crate::peeling::ready(g, Set::empty(), 0)) by {
        assert forall|p: int| #[trigger] crate::graph::dominates(g, p, 0) implies false by {
            assert(crate::graph::measured(d, s, p, 0));
        }
    }
    reveal_with_fuel(crate::graph::positions_where, 2);
    assert(front_at(g, 0) == seq![0int]);
    assert(g[0].len() == 0) by {
        if g[0].len() > 0 {
            assert(g[0].contains(g[0][0]));
            assert(crate::graph::dominates(g, 0, g[0][0]));
            assert(crate::graph::measured(d, s, 0, g[0][0]));
        }
    }
    reveal_with_fuel(crate::peeling::released_upto, 2);
    assert(front_at(g, 1).len() == 0);
    if fronts.len() == 0 {
        assert(false);
    } else if fronts.len() > 1 {
        assert(fronts[1].indices().len() > 0);
    }
}

} // verus!
