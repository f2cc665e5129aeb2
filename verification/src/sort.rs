//! The sort itself, over any integer type that can hold the positions: the
//! sweep over all pairs of solutions, which yields the first front, and the
//! step from one front to the next.

use crate::domination::DominationOrd;
use crate::graph::{
    count_below, dominated_by, dominates, dominators_of, graph_of, lemma_count_below_agree,
    lemma_count_below_bound, lemma_count_below_zero, lemma_graph_of,
    lemma_positions_where_agree, members_where, positions_where, valid_graph, Graph,
};
use crate::peeling::{
    done_before, front_at, lemma_front_fresh, lemma_front_members, lemma_front_no_duplicates,
    lemma_waiting_settle, lemma_waiting_zero, ready_test, released_upto, settled_with, waiting,
    waiting_test,
};
use std::cmp::Ordering;
use vstd::prelude::*;

verus! {

/// An integer type in which the sort stores positions and domination
/// counts. A narrow type saves memory in the lists of dominated positions,
/// which can hold one entry for every pair of solutions.
pub trait Index: Copy {
    /// The largest number that the type holds.
    spec fn limit() -> nat;

    /// The number that a value stands for.
    spec fn position(self) -> nat;

    /// Whether the type holds every number up to `max_index`.
    fn check(max_index: usize) -> (ok: bool)
        ensures
            ok == (max_index <= Self::limit()),
    ;

    /// The value that stands for `index`, which the type has to hold.
    fn new(index: usize) -> (r: Self)
        requires
            index <= Self::limit(),
        ensures
            r.position() == index,
    ;

    /// The number that this value stands for.
    fn index(self) -> (r: usize)
        ensures
            r == self.position(),
    ;

    /// Adds one to a value below the limit.
    fn inc(&mut self)
        requires
            old(self).position() < Self::limit(),
        ensures
            final(self).position() == old(self).position() + 1,
    ;

    /// Takes one from a value above zero, and says whether zero is left.
    fn dec_to_zero(&mut self) -> (zero: bool)
        requires
            old(self).position() > 0,
        ensures
            final(self).position() == old(self).position() - 1,
            zero == (final(self).position() == 0),
    ;
}

impl Index for usize {
    open spec fn limit() -> nat {
        usize::MAX as nat
    }

    open spec fn position(self) -> nat {
        self as nat
    }

    fn new(index: usize) -> Self {
        index
    }

    fn check(_max_index: usize) -> bool {
        true
    }

    fn index(self) -> usize {
        self
    }

    fn inc(&mut self) {
        *self += 1;
    }

    fn dec_to_zero(&mut self) -> bool {
        *self -= 1;
        *self == 0
    }
}

impl Index for u32 {
    open spec fn limit() -> nat {
        u32::MAX as nat
    }

    open spec fn position(self) -> nat {
        self as nat
    }

    fn check(max_index: usize) -> bool {
        max_index <= u32::MAX as usize
    }

    fn new(index: usize) -> Self {
        index as u32
    }

    fn index(self) -> usize {
        self as usize
    }

    fn inc(&mut self) {
        *self += 1;
    }

    fn dec_to_zero(&mut self) -> bool {
        *self -= 1;
        *self == 0
    }
}

/// The positions that a sequence of indices stands for.
pub open spec fn positions_of<I: Index>(v: Seq<I>) -> Seq<int> {
    Seq::new(v.len(), |k: int| v[k].position() as int)
}

/// The graph that a vector of dominated lists stands for.
pub open spec fn graph_view<I: Index>(lists: Seq<Vec<I>>) -> Graph {
    Seq::new(lists.len(), |p: int| positions_of(lists[p]@))
}

/// A front of the non-dominated sort of a sequence of solutions, from which
/// the next front is reached. `I` is the integer type in which positions
/// are stored.
pub struct Front<'a, S, I: Index = usize> {
    /// For each position, the positions that it dominates.
    dominated_solutions: Vec<Vec<I>>,
    /// For each position, by how many positions of this front or of a later
    /// one it is dominated.
    domination_count: Vec<I>,
    /// The positions of the members of this front.
    current_front: Vec<I>,
    /// The first front has rank 0, second rank 1 and so on.
    rank: usize,
    /// The solutions that are sorted.
    solutions: &'a [S],
}

/// The pair of positions that the capability finds to dominate one another
/// among `i < j`, the dominating one first.
spec fn verdict<D: DominationOrd>(
    d: &D,
    s: Seq<D::Solution>,
    i: usize,
    j: usize,
) -> Option<(usize, usize)> {
    if d.dominates_spec(&s[i as int], &s[j as int]) {
        Some((i, j))
    } else if d.dominates_spec(&s[j as int], &s[i as int]) {
        Some((j, i))
    } else {
        None
    }
}

/// Asks the capability once about the solutions at `i < j`.
fn compare<S, D>(solutions: &[S], domination: &D, i: usize, j: usize) -> (r: Option<
    (usize, usize),
>) where D: DominationOrd<Solution = S>
    requires
        i < j,
        j < solutions@.len(),
    ensures
        r == verdict(domination, solutions@, i, j),
{
    match domination.domination_ord(&solutions[i], &solutions[j]) {
        Ordering::Less => Some((i, j)),
        Ordering::Greater => Some((j, i)),
        Ordering::Equal => None,
    }
}

/// How far the pairs with position `a` have been compared when the sweep
/// stands at the pair `(i, j)`: every pair of `a` with a position below the
/// result has been.
spec fn swept(n: int, a: int, i: int, j: int) -> int {
    if a < i {
        n
    } else if a == i {
        j
    } else if a < j {
        i + 1
    } else {
        i
    }
}

/// The test "nothing dominates it".
spec fn undominated<D: DominationOrd>(d: &D, s: Seq<D::Solution>) -> spec_fn(int) -> bool {
    |q: int| count_below(dominators_of(d, s, q), s.len() as int) == 0
}

impl<'a, S, I: Index> Front<'a, S, I> {
    /// The dominance graph of the solutions.
    pub closed spec fn graph(&self) -> Graph {
        graph_view(self.dominated_solutions@)
    }

    /// The rank of this front.
    pub closed spec fn spec_rank(&self) -> nat {
        self.rank as nat
    }

    /// The positions of the members of this front, in order.
    pub closed spec fn indices(&self) -> Seq<int> {
        positions_of(self.current_front@)
    }

    /// The solutions that are sorted.
    pub closed spec fn input(&self) -> Seq<S> {
        self.solutions@
    }

    /// Each domination count is the number of dominators in this front or
    /// a later one, and every position fits the index type.
    pub closed spec fn counts_wf(&self) -> bool {
        let g = self.graph();
        &&& g.len() == self.domination_count@.len()
        &&& g.len() <= I::limit()
        &&& forall|q: int|
            0 <= q < g.len() ==> (#[trigger] self.domination_count@[q]).position() == waiting(
                g,
                done_before(g, self.spec_rank()),
                q,
            )
    }

    /// The graph is valid and has a position for each solution, and the
    /// members are those of the front of this rank.
    pub open spec fn wf(&self) -> bool {
        &&& self.counts_wf()
        &&& valid_graph(self.graph())
        &&& self.graph().len() == self.input().len()
        &&& self.graph().len() <= usize::MAX
        &&& self.indices() == front_at(self.graph(), self.spec_rank())
    }

    /// The rank of this front: 0 for the first front, 1 for the second and
    /// so on.
    pub fn rank(&self) -> (r: usize)
        ensures
            r == self.spec_rank(),
    {
        self.rank
    }

    /// Whether this front has no member, which is so once the fronts are
    /// exhausted.
    pub fn is_empty(&self) -> (r: bool)
        ensures
            r == (self.indices().len() == 0),
    {
        self.current_front.len() == 0
    }

    /// The members of this front, in the order in which they came out.
    pub fn current_front_indices(&self) -> (r: &[I])
        ensures
            positions_of(r@) == self.indices(),
    {
        self.current_front.as_slice()
    }

    /// Replaces this front by the one that follows it: the count of each
    /// position that a member dominates drops by one, and the position
    /// joins the next front when its count reaches zero.
    pub(crate) fn advance(&mut self)
        requires
            old(self).wf(),
            old(self).spec_rank() < usize::MAX,
        ensures
            final(self).wf(),
            final(self).graph() == old(self).graph(),
            final(self).input() == old(self).input(),
            final(self).spec_rank() == old(self).spec_rank() + 1,
    {
        let ghost g = self.graph();
        let ghost r = self.spec_rank();
        let ghost done = done_before(g, r);
        let ghost cur = front_at(g, r);
        let ghost n = g.len() as int;
        let mut next_front: Vec<I> = Vec::new();
        let len = self.current_front.len();
        proof {
            lemma_front_no_duplicates(g, r);
            assert(cur.take(0).to_set() =~= Set::<int>::empty());
            assert(done + cur.take(0).to_set() =~= done);
        }
        let mut i: usize = 0;
        while i < len
            invariant
                i <= len,
                len == cur.len(),
                n == g.len(),
                n <= I::limit(),
                valid_graph(g),
                cur.no_duplicates(),
                g == graph_view(self.dominated_solutions@),
                cur == positions_of(self.current_front@),
                cur == front_at(g, r),
                done == done_before(g, r),
                self.rank == old(self).rank,
                self.solutions == old(self).solutions,
                self.domination_count@.len() == n,
                forall|x: int|
                    0 <= x < n ==> (#[trigger] self.domination_count@[x]).position() == waiting(
                        g,
                        done + cur.take(i as int).to_set(),
                        x,
                    ),
                positions_of(next_front@) == released_upto(g, done, cur, i as int),
            decreases len - i,
        {
            let p = self.current_front[i].index();
            let ghost settled = done + cur.take(i as int).to_set();
            let ghost test = ready_test(g, settled_with(done, cur, i as int));
            proof {
                assert(cur.contains(cur[i as int]));
                lemma_front_members(g, r, cur[i as int]);
                lemma_front_fresh(g, r, cur[i as int]);
                if cur.take(i as int).contains(p as int) {
                    let t = cur.take(i as int);
                    let a = choose|a: int| 0 <= a < t.len() && t[a] == p;
                    assert(cur[a] == cur[i as int]);
                }
                cur.lemma_take_succ_push(i as int);
                cur.take(i as int).lemma_push_to_set_commute(p as int);
                assert(settled_with(done, cur, i as int) =~= settled.insert(p as int));
            }
            let list_len = self.dominated_solutions[p].len();
            let mut j: usize = 0;
            while j < list_len
                invariant
                    j <= list_len,
                    i < len,
                    len == cur.len(),
                    n == g.len(),
                    n <= I::limit(),
                    0 <= p < n,
                    p == cur[i as int],
                    list_len == g[p as int].len(),
                    valid_graph(g),
                    g == graph_view(self.dominated_solutions@),
                    cur == positions_of(self.current_front@),
                    !settled.contains(p as int),
                    test == ready_test(g, settled.insert(p as int)),
                    self.rank == old(self).rank,
                    self.solutions == old(self).solutions,
                    self.domination_count@.len() == n,
                    forall|x: int|
                        0 <= x < n ==> (#[trigger] self.domination_count@[x]).position() == if g[p as int].take(
                            j as int,
                        ).contains(x) {
                            waiting(g, settled.insert(p as int), x)
                        } else {
                            waiting(g, settled, x)
                        },
                    positions_of(next_front@) == released_upto(g, done, cur, i as int)
                        + members_where(g[p as int], test, j as int),
                decreases list_len - j,
            {
                let q_i = self.dominated_solutions[p][j];
                let q = q_i.index();
                let ghost list = g[p as int];
                let ghost counts_before = self.domination_count@;
                let ghost next_before = next_front@;
                proof {
                    assert(list[j as int] == q);
                    assert(0 <= list[j as int] < n);
                    assert(list.contains(q as int));
                    if list.take(j as int).contains(q as int) {
                        let t = list.take(j as int);
                        let a = choose|a: int| 0 <= a < t.len() && t[a] == q;
                        assert(list[a] == list[j as int]);
                    }
                    lemma_waiting_settle(g, settled, p as int, q as int);
                    lemma_waiting_zero(g, settled.insert(p as int), q as int);
                    list.lemma_take_succ_push(j as int);
                }
                if self.domination_count[q].dec_to_zero() {
                    next_front.push(q_i);
                    assert(positions_of(next_front@) == positions_of(next_before).push(q as int));
                }
                proof {
                    assert forall|x: int| 0 <= x < n implies (
                    #[trigger] self.domination_count@[x]).position() == if list.take(
                        j as int + 1,
                    ).contains(x) {
                        waiting(g, settled.insert(p as int), x)
                    } else {
                        waiting(g, settled, x)
                    } by {
                        let t = list.take(j as int);
                        let u = list.take(j as int + 1);
                        if x == q {
                            assert(u[j as int] == q);
                        } else {
                            assert(self.domination_count@[x] == counts_before[x]);
                            if t.contains(x) {
                                let a = choose|a: int| 0 <= a < t.len() && t[a] == x;
                                assert(u[a] == x);
                            }
                            if u.contains(x) {
                                let a = choose|a: int| 0 <= a < u.len() && u[a] == x;
                                assert(t[a] == x);
                            }
                        }
                    }
                }
                j += 1;
            }
            proof {
                let list = g[p as int];
                assert(list.take(list_len as int) == list);
                assert forall|x: int| 0 <= x < n implies (
                #[trigger] self.domination_count@[x]).position() == waiting(
                    g,
                    done + cur.take(i as int + 1).to_set(),
                    x,
                ) by {
                    lemma_waiting_settle(g, settled, p as int, x);
                }
            }
            i += 1;
        }
        self.current_front = next_front;
        self.rank = self.rank + 1;
        proof {
            assert(cur.take(len as int) == cur);
        }
    }

    /// The front that follows this one. After an empty front every front is
    /// empty. The rank must not be the largest that `usize` holds.
    pub fn next_front(self) -> (next: Self)
        requires
            self.wf(),
            self.spec_rank() < usize::MAX,
        ensures
            next.wf(),
            next.graph() == self.graph(),
            next.input() == self.input(),
            next.spec_rank() == self.spec_rank() + 1,
    {
        let mut next = self;
        next.advance();
        next
    }
}

/// Perform a non-dominated sort of `solutions`. Returns the first
/// pareto front.
///
/// The capability is asked once for each pair of solutions, the one at the
/// lower position first. The index type has to hold the number of
/// solutions, which `I::check` tells.
pub fn non_dominated_sort<'a, S, D, I>(solutions: &'a [S], domination: &D) -> (front: Front<
    'a,
    S,
    I,
>) where D: DominationOrd<Solution = S>, I: Index
    requires
        solutions@.len() <= I::limit(),
    ensures
        front.wf(),
        front.spec_rank() == 0,
        front.input() == solutions@,
        front.graph() == graph_of(domination, solutions@),
        front.indices() == front_at(graph_of(domination, solutions@), 0),
{
    let n = solutions.len();
    let ghost s = solutions@;
    let mut dominated_solutions: Vec<Vec<I>> = Vec::new();
    let mut domination_count: Vec<I> = Vec::new();
    let mut k: usize = 0;
    while k < n
        invariant
            k <= n,
            n <= I::limit(),
            dominated_solutions@.len() == k,
            domination_count@.len() == k,
            forall|a: int| 0 <= a < k ==> (#[trigger] dominated_solutions@[a])@.len() == 0,
            forall|a: int| 0 <= a < k ==> (#[trigger] domination_count@[a]).position() == 0,
        decreases n - k,
    {
        dominated_solutions.push(Vec::new());
        domination_count.push(I::new(0));
        k += 1;
    }
    let mut current_front: Vec<I> = Vec::new();
    let mut i: usize = 0;
    while i < n
        invariant
            i <= n,
            n == s.len(),
            s == solutions@,
            n <= I::limit(),
            dominated_solutions@.len() == n,
            domination_count@.len() == n,
            forall|a: int|
                0 <= a < n ==> positions_of((#[trigger] dominated_solutions@[a])@)
                    == positions_where(
                    dominated_by(domination, s, a),
                    swept(n as int, a, i as int, i as int),
                ),
            forall|a: int|
                0 <= a < n ==> (#[trigger] domination_count@[a]).position() == count_below(
                    dominators_of(domination, s, a),
                    swept(n as int, a, i as int, i as int),
                ),
            positions_of(current_front@) == positions_where(undominated(domination, s), i as int),
        decreases n - i,
    {
        let mut j: usize = i + 1;
        while j < n
            invariant
                i < j <= n,
                n == s.len(),
                s == solutions@,
                n <= I::limit(),
                dominated_solutions@.len() == n,
                domination_count@.len() == n,
                forall|a: int|
                    0 <= a < n ==> positions_of((#[trigger] dominated_solutions@[a])@)
                        == positions_where(
                        dominated_by(domination, s, a),
                        swept(n as int, a, i as int, j as int),
                    ),
                forall|a: int|
                    0 <= a < n ==> (#[trigger] domination_count@[a]).position() == count_below(
                        dominators_of(domination, s, a),
                        swept(n as int, a, i as int, j as int),
                    ),
            decreases n - j,
        {
            let ghost lists_before = dominated_solutions@;
            let found = compare(solutions, domination, i, j);
            if let Some((p, q)) = found {
                proof {
                    lemma_count_below_bound(
                        dominators_of(domination, s, q as int),
                        swept(n as int, q as int, i as int, j as int),
                    );
                }
                dominated_solutions[p].push(I::new(q));
                domination_count[q].inc();
                assert(positions_of(dominated_solutions@[p as int]@) == positions_of(
                    lists_before[p as int]@,
                ).push(q as int));
            }
            j += 1;
        }
        if domination_count[i].index() == 0 {
            current_front.push(I::new(i));
            assert(positions_of(current_front@) == positions_where(
                undominated(domination, s),
                i as int,
            ).push(i as int));
        }
        i += 1;
    }
    let front = Front { dominated_solutions, domination_count, current_front, rank: 0, solutions };
    proof {
        let g = graph_of(domination, s);
        lemma_graph_of(domination, s);
        assert(front.graph() == g);
        assert forall|q: int| 0 <= q < n implies (#[trigger] front.domination_count@[q]).position()
            == waiting(g, done_before(g, 0), q) by {
            lemma_count_below_agree(
                dominators_of(domination, s, q),
                waiting_test(g, Set::empty(), q),
                n as int,
            );
        }
        assert forall|q: int| 0 <= q < n implies #[trigger] undominated(domination, s)(q)
            == ready_test(g, Set::empty())(q) by {
            lemma_count_below_zero(dominators_of(domination, s, q), n as int);
            if undominated(domination, s)(q) {
                assert forall|p: int| #[trigger] dominates(g, p, q) implies false by {
                    assert(!dominators_of(domination, s, q)(p));
                }
            }
        }
        lemma_positions_where_agree(
            undominated(domination, s),
            ready_test(g, Set::empty()),
            n as int,
        );
    }
    front
}

/// Determinism: two fronts of the same rank over the same dominance graph
/// hold the same members in the same order, whatever the index types.
pub proof fn lemma_front_determined<S, I: Index, J: Index>(
    one: &Front<S, I>,
    other: &Front<S, J>,
)
    requires
        one.wf(),
        other.wf(),
        one.graph() == other.graph(),
        one.spec_rank() == other.spec_rank(),
    ensures
        one.indices() == other.indices(),
{
}

} // verus!
