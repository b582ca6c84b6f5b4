//! The search problem as the engines see it: numbered cells, the moves between
//! them, what each cell costs, and what a route and its cost are.

use vstd::prelude::*;

verus! {

/// Most cells a search space may have. Accumulated costs and priorities of any
/// space within this limit fit in 64 bits.
pub const MAX_NODES: u64 = 0x1_0000_0000_0000;

/// Largest cost a single cell can carry.
pub const MAX_TOLL: u64 = 255;

/// A finite set of numbered cells with costs, moves, starts and goals.
///
/// Cells are numbered `0 .. size()`. A route may stand only on passable cells and
/// pays the toll of every cell it stands on, the first included.
pub trait SearchSpace {
    /// The description is consistent; every other item assumes it.
    spec fn wf(&self) -> bool;

    /// Number of cells.
    spec fn size(&self) -> nat;

    /// Cost of standing on cell `v`.
    spec fn toll(&self, v: int) -> nat;

    /// Whether a route may stand on `v`.
    spec fn passable(&self, v: int) -> bool;

    /// Whether one move leads from `u` to `v`, by position alone.
    spec fn adjacent(&self, u: int, v: int) -> bool;

    /// Whether a route may begin at `v`.
    spec fn is_start(&self, v: int) -> bool;

    /// Whether a route may end at `v`.
    spec fn is_goal(&self, v: int) -> bool;

    /// Lower estimate of the cost still to pay after standing on `v`.
    spec fn remaining(&self, v: int) -> nat;

    /// Tolls are bytes and the space is small enough for 64-bit costs.
    proof fn lemma_limits(&self, v: int)
        requires
            self.wf(),
            0 <= v < self.size(),
        ensures
            self.size() <= MAX_NODES,
            self.toll(v) <= MAX_TOLL,
            self.remaining(v) <= MAX_TOLL * self.size(),
    ;

    /// The estimate is consistent: one move lowers it by no more than the move costs.
    proof fn lemma_estimate_step(&self, u: int, v: int)
        requires
            self.wf(),
            0 <= u < self.size(),
            0 <= v < self.size(),
            self.passable(v),
            self.adjacent(u, v),
        ensures
            self.remaining(u) <= self.toll(v) + self.remaining(v),
    ;

    /// Nothing remains to pay at a goal.
    proof fn lemma_estimate_goal(&self, v: int)
        requires
            self.wf(),
            0 <= v < self.size(),
            self.is_goal(v),
        ensures
            self.remaining(v) == 0,
    ;

    /// Number of cells.
    fn node_count(&self) -> (n: usize)
        requires
            self.wf(),
        ensures
            n == self.size(),
            n <= MAX_NODES,
    ;

    /// Toll of `v`, or `None` where no route may stand.
    fn cost(&self, v: usize) -> (c: Option<u8>)
        requires
            self.wf(),
            v < self.size(),
        ensures
            c is Some <==> self.passable(v as int),
            c matches Some(t) ==> t == self.toll(v as int),
    ;

    /// Every cell a route may begin at.
    fn starts(&self) -> (list: Vec<usize>)
        requires
            self.wf(),
        ensures
            forall|i: int| 0 <= i < list@.len() ==> (#[trigger] list@[i]) < self.size() && self.is_start(list@[i] as int),
            forall|v: int| 0 <= v < self.size() && self.is_start(v) ==> exists|i: int| 0 <= i < list@.len() && #[trigger] list@[i] == v,
    ;

    /// Whether a route may end at `v`.
    fn goal(&self, v: usize) -> (b: bool)
        requires
            self.wf(),
            v < self.size(),
        ensures
            b == self.is_goal(v as int),
    ;

    /// Every cell one move away from `u`.
    fn successors(&self, u: usize) -> (list: Vec<usize>)
        requires
            self.wf(),
            u < self.size(),
        ensures
            forall|i: int| 0 <= i < list@.len() ==> (#[trigger] list@[i]) < self.size() && self.adjacent(u as int, list@[i] as int),
            forall|v: int| 0 <= v < self.size() && self.adjacent(u as int, v) ==> exists|i: int| 0 <= i < list@.len() && #[trigger] list@[i] == v,
    ;

    /// The estimate for `v`.
    fn estimate(&self, v: usize) -> (h: u64)
        requires
            self.wf(),
            v < self.size(),
        ensures
            h == self.remaining(v as int),
    ;
}

/// Cell numbers of an executable path, as the specifications read them.
pub open spec fn as_walk(p: Seq<usize>) -> Seq<int> {
    p.map_values(|v: usize| v as int)
}

/// `r` is a route: a non-empty run of passable cells, each one move from the last.
pub open spec fn is_walk<S: SearchSpace>(s: &S, r: Seq<int>) -> bool {
    &&& r.len() > 0
    &&& forall|i: int| 0 <= i < r.len() ==> 0 <= #[trigger] r[i] < s.size() && s.passable(r[i])
    &&& forall|i: int| 0 < i < r.len() ==> s.adjacent(r[i - 1], #[trigger] r[i])
}

/// Sum of the tolls of the cells of `r`, the first included.
pub open spec fn walk_cost<S: SearchSpace>(s: &S, r: Seq<int>) -> nat
    decreases r.len(),
{
    if r.len() == 0 {
        0
    } else {
        walk_cost(s, r.drop_last()) + s.toll(r.last())
    }
}

/// `r` is a route from some start to some goal.
pub open spec fn connects<S: SearchSpace>(s: &S, r: Seq<int>) -> bool {
    is_walk(s, r) && s.is_start(r[0]) && s.is_goal(r.last())
}

/// `r` connects a start to a goal, costs `c`, and no connecting route costs less.
pub open spec fn is_optimal<S: SearchSpace>(s: &S, r: Seq<int>, c: nat) -> bool {
    &&& connects(s, r)
    &&& walk_cost(s, r) == c
    &&& forall|q: Seq<int>| connects(s, q) ==> c <= #[trigger] walk_cost(s, q)
}

/// What every engine owes: an optimal route with its cost, or `None` exactly when
/// no route connects a start to a goal.
pub open spec fn is_answer<S: SearchSpace>(s: &S, out: Option<(Vec<usize>, u64)>) -> bool {
    match out {
        Some((path, total)) => is_optimal(s, as_walk(path@), total as nat),
        None => forall|q: Seq<int>| !connects(s, q),
    }
}

/// The priority bias of a search: the estimate when guided, nothing otherwise.
pub open spec fn bias<S: SearchSpace>(s: &S, guided: bool, v: int) -> nat {
    if guided {
        s.remaining(v)
    } else {
        0
    }
}

/// The cost of a run of cells put after another is the sum of the two costs.
pub proof fn lemma_cost_concat<S: SearchSpace>(s: &S, a: Seq<int>, b: Seq<int>)
    ensures
        walk_cost(s, a + b) == walk_cost(s, a) + walk_cost(s, b),
    decreases b.len(),
{
    if b.len() == 0 {
        assert(a + b =~= a);
    } else {
        assert((a + b).drop_last() =~= a + b.drop_last());
        assert((a + b).last() == b.last());
        lemma_cost_concat(s, a, b.drop_last());
    }
}

/// Extending a prefix by one cell adds that cell's toll.
pub proof fn lemma_cost_step<S: SearchSpace>(s: &S, r: Seq<int>, k: int)
    requires
        0 <= k < r.len(),
    ensures
        walk_cost(s, r.take(k + 1)) == walk_cost(s, r.take(k)) + s.toll(r[k]),
{
    assert(r.take(k + 1).drop_last() =~= r.take(k));
    assert(r.take(k + 1).last() == r[k]);
}

/// A route of `n` cells costs at most `n` times the largest toll.
pub proof fn lemma_cost_bound<S: SearchSpace>(s: &S, r: Seq<int>)
    requires
        s.wf(),
        forall|i: int| 0 <= i < r.len() ==> 0 <= #[trigger] r[i] < s.size(),
    ensures
        walk_cost(s, r) <= MAX_TOLL * r.len(),
    decreases r.len(),
{
    if r.len() > 0 {
        lemma_cost_bound(s, r.drop_last());
        s.lemma_limits(r.last());
    }
}

/// A prefix of a route is a route.
pub proof fn lemma_walk_prefix<S: SearchSpace>(s: &S, r: Seq<int>, k: int)
    requires
        is_walk(s, r),
        1 <= k <= r.len(),
    ensures
        is_walk(s, r.take(k)),
        r.take(k)[0] == r[0],
        r.take(k).last() == r[k - 1],
        walk_cost(s, r.take(k)) <= walk_cost(s, r),
{
    let p = r.take(k);
    assert forall|i: int| 0 < i < p.len() implies s.adjacent(p[i - 1], #[trigger] p[i]) by {
        assert(p[i] == r[i]);
        assert(p[i - 1] == r[i - 1]);
    }
    assert(r =~= p + r.skip(k));
    lemma_cost_concat(s, p, r.skip(k));
}

/// Along a route the cost paid so far plus the bias never exceeds the whole cost
/// plus the bias at the end.
pub proof fn lemma_bias_telescopes<S: SearchSpace>(s: &S, guided: bool, r: Seq<int>, k: int)
    requires
        s.wf(),
        is_walk(s, r),
        1 <= k <= r.len(),
    ensures
        walk_cost(s, r.take(k)) + bias(s, guided, r[k - 1]) <= walk_cost(s, r) + bias(
            s,
            guided,
            r.last(),
        ),
    decreases r.len() - k,
{
    if k == r.len() {
        assert(r.take(k) =~= r);
    } else {
        lemma_bias_telescopes(s, guided, r, k + 1);
        lemma_cost_step(s, r, k);
        assert(s.adjacent(r[k - 1], r[k]));
        if guided {
            s.lemma_estimate_step(r[k - 1], r[k]);
        }
    }
}

/// More cells than the space has cannot all be different.
proof fn lemma_repeat<S: SearchSpace>(s: &S, r: Seq<int>) -> (ij: (int, int))
    requires
        forall|i: int| 0 <= i < r.len() ==> 0 <= #[trigger] r[i] < s.size(),
        r.len() > s.size(),
    ensures
        0 <= ij.0 < ij.1 < r.len(),
        r[ij.0] == r[ij.1],
{
    if r.no_duplicates() {
        r.unique_seq_to_set();
        let range = vstd::set_lib::set_int_range(0, s.size() as int);
        vstd::set_lib::lemma_int_range(0, s.size() as int);
        assert(r.to_set().subset_of(range)) by {
            assert forall|x: int| r.to_set().contains(x) implies range.contains(x) by {
                let i = choose|i: int| 0 <= i < r.len() && r[i] == x;
                assert(0 <= r[i] < s.size());
            }
        }
        vstd::set_lib::lemma_len_subset(r.to_set(), range);
        assert(false);
    }
    let (i, j) = choose|i: int, j: int| 0 <= i < r.len() && 0 <= j < r.len() && i != j && r[i] == r[j];
    if i < j {
        (i, j)
    } else {
        (j, i)
    }
}

/// Every route has a route between the same two cells that costs no more and
/// stands on no more cells than the space has.
pub proof fn lemma_short_walk<S: SearchSpace>(s: &S, r: Seq<int>) -> (q: Seq<int>)
    requires
        s.wf(),
        is_walk(s, r),
    ensures
        is_walk(s, q),
        q[0] == r[0],
        q.last() == r.last(),
        q.len() <= s.size(),
        walk_cost(s, q) <= walk_cost(s, r),
        walk_cost(s, q) <= MAX_TOLL * s.size(),
    decreases r.len(),
{
    if r.len() <= s.size() {
        lemma_cost_bound(s, r);
        assert(MAX_TOLL * r.len() <= MAX_TOLL * s.size()) by (nonlinear_arith)
            requires
                r.len() <= s.size(),
        ;
        r
    } else {
        let (i, j) = lemma_repeat(s, r);
        let head = r.take(i);
        let loop_part = r.subrange(i, j);
        let tail = r.skip(j);
        let cut = head + tail;
        assert(r =~= head + loop_part + tail);
        lemma_cost_concat(s, head + loop_part, tail);
        lemma_cost_concat(s, head, loop_part);
        lemma_cost_concat(s, head, tail);
        assert forall|k: int| 0 <= k < cut.len() implies 0 <= #[trigger] cut[k] < s.size()
            && s.passable(cut[k]) by {
            if k < i {
                assert(cut[k] == r[k]);
            } else {
                assert(cut[k] == r[k + (j - i)]);
            }
        }
        assert forall|k: int| 0 < k < cut.len() implies s.adjacent(cut[k - 1], #[trigger] cut[k]) by {
            if k < i {
                assert(cut[k] == r[k] && cut[k - 1] == r[k - 1]);
            } else if k == i {
                assert(cut[k] == r[j] && cut[k - 1] == r[i - 1]);
                assert(s.adjacent(r[i - 1], r[i]));
            } else {
                assert(cut[k] == r[k + (j - i)] && cut[k - 1] == r[k + (j - i) - 1]);
            }
        }
        assert(cut[0] == r[0]);
        assert(cut.last() == r.last());
        lemma_short_walk(s, cut)
    }
}

/// What a search has settled so far: every passable start is reached at no more
/// than its toll, and every move out of a finished cell has been tried, as far as
/// the cost stays within `cap`.
#[verifier::opaque]
pub open spec fn relaxed<S: SearchSpace>(
    s: &S,
    cap: nat,
    seen: Seq<bool>,
    done: Seq<bool>,
    cost: Seq<u64>,
) -> bool {
    &&& seen.len() == s.size()
    &&& done.len() == s.size()
    &&& cost.len() == s.size()
    &&& forall|v: int|
        0 <= v < s.size() && s.is_start(v) && s.passable(v) ==> #[trigger] seen[v] && cost[v]
            <= s.toll(v)
    &&& forall|u: int| 0 <= u < s.size() && #[trigger] done[u] ==> seen[u]
    &&& forall|u: int, v: int|
        0 <= u < s.size() && 0 <= v < s.size() && #[trigger] done[u] && s.passable(v)
            && #[trigger] s.adjacent(u, v) && cost[u] + s.toll(v) <= cap ==> seen[v] && cost[v]
            <= cost[u] + s.toll(v)
}

/// On every route from a start that ends at an unfinished cell and costs no more
/// than `cap`, some unfinished cell has been reached at no more than the route pays
/// up to it.
pub proof fn lemma_first_open<S: SearchSpace>(
    s: &S,
    cap: nat,
    seen: Seq<bool>,
    done: Seq<bool>,
    cost: Seq<u64>,
    r: Seq<int>,
    k: int,
) -> (w: int)
    requires
        s.wf(),
        relaxed(s, cap, seen, done, cost),
        is_walk(s, r),
        s.is_start(r[0]),
        walk_cost(s, r) <= cap,
        !done[r.last()],
        0 <= k < r.len(),
        k > 0 ==> done[r[k - 1]] && cost[r[k - 1]] <= walk_cost(s, r.take(k)),
    ensures
        k <= w < r.len(),
        seen[r[w]],
        !done[r[w]],
        cost[r[w]] <= walk_cost(s, r.take(w + 1)),
    decreases r.len() - k,
{
    reveal(relaxed);
    lemma_cost_step(s, r, k);
    lemma_walk_prefix(s, r, k + 1);
    if k == 0 {
        assert(r.take(0) =~= Seq::<int>::empty());
        assert(seen[r[0]] && cost[r[0]] <= s.toll(r[0]));
    } else {
        assert(done[r[k - 1]] && cost[r[k - 1]] <= walk_cost(s, r.take(k)));
        assert(s.adjacent(r[k - 1], r[k]));
        assert(seen[r[k]] && cost[r[k]] <= cost[r[k - 1]] + s.toll(r[k]));
    }
    if done[r[k]] {
        assert(k < r.len() - 1);
        lemma_first_open(s, cap, seen, done, cost, r, k + 1)
    } else {
        k
    }
}

/// Reaching a cell at a lower cost, and counting it unfinished again, leaves
/// everything settled.
pub proof fn lemma_relaxed_lower<S: SearchSpace>(
    s: &S,
    cap: nat,
    seen: Seq<bool>,
    done: Seq<bool>,
    cost: Seq<u64>,
    w: int,
    c: u64,
)
    requires
        relaxed(s, cap, seen, done, cost),
        0 <= w < s.size(),
        seen[w] ==> c <= cost[w],
    ensures
        relaxed(s, cap, seen.update(w, true), done.update(w, false), cost.update(w, c)),
{
    reveal(relaxed);
    let seen2 = seen.update(w, true);
    let done2 = done.update(w, false);
    let cost2 = cost.update(w, c);
    assert forall|v: int| 0 <= v < s.size() && s.is_start(v) && s.passable(v) implies #[trigger]
        seen2[v] && cost2[v] <= s.toll(v) by {
        assert(seen[v]);
    }
    assert forall|u: int| 0 <= u < s.size() && #[trigger] done2[u] implies seen2[u] by {
        assert(done[u]);
    }
    assert forall|u: int, v: int|
        0 <= u < s.size() && 0 <= v < s.size() && #[trigger] done2[u] && s.passable(v)
            && #[trigger] s.adjacent(u, v) && cost2[u] + s.toll(v) <= cap implies seen2[v]
        && cost2[v] <= cost2[u] + s.toll(v) by {
        assert(done[u]);
        assert(cost2[u] == cost[u]);
        assert(seen[v] && cost[v] <= cost[u] + s.toll(v));
    }
}

/// Once every move out of an unfinished cell has been tried, the cell can be
/// finished.
pub proof fn lemma_relaxed_close<S: SearchSpace>(
    s: &S,
    cap: nat,
    seen: Seq<bool>,
    done: Seq<bool>,
    cost: Seq<u64>,
    u: int,
)
    requires
        relaxed(s, cap, seen, done, cost),
        0 <= u < s.size(),
        seen[u],
        forall|v: int|
            0 <= v < s.size() && s.passable(v) && #[trigger] s.adjacent(u, v) && cost[u] + s.toll(v)
                <= cap ==> seen[v] && cost[v] <= cost[u] + s.toll(v),
    ensures
        relaxed(s, cap, seen, done.update(u, true), cost),
{
    reveal(relaxed);
    let done2 = done.update(u, true);
    assert forall|x: int| 0 <= x < s.size() && #[trigger] done2[x] implies seen[x] by {
        if x != u {
            assert(done[x]);
        }
    }
    assert forall|x: int, v: int|
        0 <= x < s.size() && 0 <= v < s.size() && #[trigger] done2[x] && s.passable(v)
            && #[trigger] s.adjacent(x, v) && cost[x] + s.toll(v) <= cap implies seen[v] && cost[v]
        <= cost[x] + s.toll(v) by {
        if x != u {
            assert(done[x]);
        }
    }
}

} // verus!
