//! What a search has learned about each cell: the best cost found so far and the
//! cell it was reached from.

use crate::graph::{as_walk, is_walk, lemma_cost_step, walk_cost, SearchSpace, MAX_TOLL};
use vstd::prelude::*;

verus! {

/// Per-cell search labels.
///
/// `stamp` and `clock` are bookkeeping for the proofs: `stamp[v]` is the moment at
/// which the label of `v` was last written, so that predecessor links can be shown
/// to lead back to a start even where tolls are zero.
pub struct Labels {
    pub cost: Vec<u64>,
    pub parent: Vec<usize>,
    pub seen: Vec<bool>,
    pub stamp: Ghost<Seq<nat>>,
    pub clock: Ghost<nat>,
}

impl Labels {
    /// The label of a reached cell `v` is backed by its predecessor: `v` is either
    /// a start that costs its own toll, or was reached by a move from a reached
    /// cell whose cost plus the toll of `v` is no more than the cost of `v`.
    #[verifier::opaque]
    pub open spec fn anchored<S: SearchSpace>(&self, s: &S, v: int) -> bool {
        let u = self.parent@[v] as int;
        &&& s.passable(v)
        &&& self.cost@[v] <= MAX_TOLL * s.size()
        &&& self.stamp@[v] < self.clock@
        &&& if u == v {
            s.is_start(v) && self.cost@[v] == s.toll(v)
        } else {
            &&& 0 <= u < s.size()
            &&& self.seen@[u]
            &&& s.adjacent(u, v)
            &&& self.cost@[u] + s.toll(v) <= self.cost@[v]
            &&& (self.cost@[u] + s.toll(v) < self.cost@[v] || self.stamp@[u] < self.stamp@[v])
        }
    }

    /// One label per cell, and every reached cell is anchored.
    pub open spec fn wf<S: SearchSpace>(&self, s: &S) -> bool {
        &&& self.cost@.len() == s.size()
        &&& self.parent@.len() == s.size()
        &&& self.seen@.len() == s.size()
        &&& self.stamp@.len() == s.size()
        &&& forall|v: int| 0 <= v < s.size() && #[trigger] self.seen@[v] ==> self.anchored(s, v)
    }

    /// A reached cell is passable and its cost is within what any route over the
    /// space can cost at most.
    pub proof fn lemma_anchor<S: SearchSpace>(&self, s: &S, v: int)
        requires
            self.wf(s),
            0 <= v < s.size(),
            self.seen@[v],
        ensures
            s.passable(v),
            self.cost@[v] <= MAX_TOLL as nat * s.size(),
    {
        reveal(Labels::anchored);
        assert(self.anchored(s, v));
    }

    /// Labels for a space in which nothing has been reached yet.
    pub fn new<S: SearchSpace>(s: &S) -> (l: Labels)
        requires
            s.wf(),
        ensures
            l.wf(s),
            forall|v: int| 0 <= v < s.size() ==> !l.seen@[v],
    {
        let n = s.node_count();
        Labels {
            cost: vec![0u64; n],
            parent: vec![0usize; n],
            seen: vec![false; n],
            stamp: Ghost(Seq::new(n as nat, |i: int| 0nat)),
            clock: Ghost(0nat),
        }
    }

    /// Records the passable start `v` as reached at its own toll.
    pub fn plant<S: SearchSpace>(&mut self, s: &S, v: usize, toll: u8)
        requires
            s.wf(),
            old(self).wf(s),
            v < s.size(),
            s.is_start(v as int),
            s.passable(v as int),
            toll == s.toll(v as int),
            !old(self).seen@[v as int],
        ensures
            final(self).wf(s),
            final(self).seen@ == old(self).seen@.update(v as int, true),
            final(self).cost@ == old(self).cost@.update(v as int, toll as u64),
            final(self).parent@ == old(self).parent@.update(v as int, v),
    {
        proof {
            reveal(Labels::anchored);
            s.lemma_limits(v as int);
            assert(MAX_TOLL <= MAX_TOLL * s.size()) by (nonlinear_arith)
                requires
                    s.size() >= 1,
            ;
        }
        let ghost before = *self;
        self.cost[v] = toll as u64;
        self.parent[v] = v;
        self.seen[v] = true;
        proof {
            self.stamp@ = self.stamp@.update(v as int, self.clock@);
            self.clock@ = self.clock@ + 1;
            assert forall|w: int| 0 <= w < s.size() && #[trigger] self.seen@[w] implies self.anchored(
                s,
                w,
            ) by {
                if w != v {
                    assert(before.seen@[w]);
                    assert(before.anchored(s, w));
                    let u = before.parent@[w] as int;
                    assert(u != v);
                }
            }
        }
    }

    /// Records that `v` is reached from `u` at cost `c`, better than anything
    /// recorded for `v` before.
    pub fn graft<S: SearchSpace>(&mut self, s: &S, u: usize, v: usize, c: u64)
        requires
            s.wf(),
            old(self).wf(s),
            u < s.size(),
            v < s.size(),
            old(self).seen@[u as int],
            s.passable(v as int),
            s.adjacent(u as int, v as int),
            c == old(self).cost@[u as int] + s.toll(v as int),
            c <= MAX_TOLL * s.size(),
            !old(self).seen@[v as int] || c < old(self).cost@[v as int],
        ensures
            final(self).wf(s),
            final(self).seen@ == old(self).seen@.update(v as int, true),
            final(self).cost@ == old(self).cost@.update(v as int, c),
            final(self).parent@ == old(self).parent@.update(v as int, u),
    {
        let ghost before = *self;
        proof {
            reveal(Labels::anchored);
            assert(before.anchored(s, u as int));
        }
        assert(u != v);
        self.cost[v] = c;
        self.parent[v] = u;
        self.seen[v] = true;
        proof {
            self.stamp@ = self.stamp@.update(v as int, self.clock@);
            self.clock@ = self.clock@ + 1;
            assert(before.anchored(s, u as int));
            assert forall|w: int| 0 <= w < s.size() && #[trigger] self.seen@[w] implies self.anchored(
                s,
                w,
            ) by {
                if w != v {
                    assert(before.seen@[w]);
                    assert(before.anchored(s, w));
                }
            }
        }
    }

    /// Follows the predecessor links from `goal` back to a start and returns the
    /// route in travelling order.
    pub fn trace<S: SearchSpace>(&self, s: &S, goal: usize) -> (path: Vec<usize>)
        requires
            s.wf(),
            self.wf(s),
            goal < s.size(),
            self.seen@[goal as int],
        ensures
            is_walk(s, as_walk(path@)),
            s.is_start(as_walk(path@)[0]),
            as_walk(path@).last() == goal,
            walk_cost(s, as_walk(path@)) <= self.cost@[goal as int],
            self.parent@[path@[0] as int] == path@[0],
            forall|i: int| 0 < i < path@.len() ==> self.parent@[(#[trigger] path@[i]) as int] == path@[i - 1],
    {
        let mut back: Vec<usize> = Vec::new();
        let mut cur: usize = goal;
        back.push(cur);
        proof {
            reveal(Labels::anchored);
        }
        while self.parent[cur] != cur
            invariant
                s.wf(),
                self.wf(s),
                back@.len() > 0,
                back@[0] == goal,
                back@.last() == cur,
                forall|i: int| 0 <= i < back@.len() ==> (#[trigger] back@[i]) < s.size() && self.seen@[back@[i] as int],
                forall|i: int| 0 < i < back@.len() ==> self.parent@[back@[i - 1] as int] == #[trigger] back@[i] && back@[i] != back@[i - 1],
            decreases self.cost@[cur as int], self.stamp@[cur as int],
        {
            proof {
                reveal(Labels::anchored);
            }
            assert(self.anchored(s, cur as int));
            let next = self.parent[cur];
            assert(self.anchored(s, next as int));
            cur = next;
            back.push(cur);
        }
        let n: usize = back.len();
        let mut path: Vec<usize> = Vec::new();
        let mut i: usize = n;
        while i > 0
            invariant
                i <= n,
                n == back@.len(),
                path@.len() == n - i,
                forall|j: int| 0 <= j < path@.len() ==> #[trigger] path@[j] == back@[n - 1 - j],
            decreases i,
        {
            i -= 1;
            path.push(back[i]);
        }
        proof {
            self.lemma_reversed_links(s, back@, path@);
        }
        path
    }

    /// Predecessor links followed from a cell back to a start, read in reverse, are
    /// a route from that start to the cell, at no more than the cost recorded.
    proof fn lemma_reversed_links<S: SearchSpace>(&self, s: &S, back: Seq<usize>, path: Seq<usize>)
        requires
            s.wf(),
            self.wf(s),
            back.len() > 0,
            path.len() == back.len(),
            forall|i: int|
                0 <= i < back.len() ==> (#[trigger] back[i]) < s.size() && self.seen@[back[i] as int],
            forall|i: int|
                0 < i < back.len() ==> self.parent@[back[i - 1] as int] == #[trigger] back[i]
                    && back[i] != back[i - 1],
            self.parent@[back.last() as int] == back.last(),
            forall|j: int| 0 <= j < path.len() ==> #[trigger] path[j] == back[back.len() - 1 - j],
        ensures
            is_walk(s, as_walk(path)),
            s.is_start(as_walk(path)[0]),
            as_walk(path).last() == back[0],
            walk_cost(s, as_walk(path)) <= self.cost@[back[0] as int],
    {
        reveal(Labels::anchored);
        let n = back.len() as int;
        let r = as_walk(path);
        assert(r.len() == n);
        assert forall|j: int| 0 <= j < n implies r[j] == back[n - 1 - j] as int by {
            assert(path[j] == back[n - 1 - j]);
        }
        assert forall|j: int| 0 <= j < r.len() implies 0 <= #[trigger] r[j] < s.size() && self.seen@[r[j]]
            && s.passable(r[j]) by {
            assert(self.seen@[back[n - 1 - j] as int]);
            assert(self.anchored(s, r[j]));
        }
        assert forall|j: int| 0 < j < r.len() implies self.parent@[#[trigger] r[j]] as int == r[j - 1]
            && r[j] != r[j - 1] && s.adjacent(r[j - 1], r[j]) by {
            let k = n - 1 - j;
            assert(self.parent@[back[k] as int] == back[k + 1]);
            assert(back[k + 1] != back[k]);
            assert(r[j] == back[k] as int);
            assert(r[j - 1] == back[k + 1] as int);
            assert(self.seen@[r[j]]);
            assert(self.anchored(s, r[j]));
        }
        assert(r[0] == back[n - 1] as int);
        assert(self.seen@[r[0]]);
        assert(self.anchored(s, r[0]));
        self.lemma_trace_cost(s, r, n - 1);
        assert(r.take(n) =~= r);
    }

    /// Along a route made of predecessor links, what has been paid up to a cell is
    /// no more than the cost recorded for it.
    proof fn lemma_trace_cost<S: SearchSpace>(&self, s: &S, r: Seq<int>, k: int)
        requires
            s.wf(),
            self.wf(s),
            0 <= k < r.len(),
            forall|j: int| 0 <= j < r.len() ==> 0 <= #[trigger] r[j] < s.size() && self.seen@[r[j]],
            self.parent@[r[0]] as int == r[0],
            forall|j: int| 0 < j < r.len() ==> self.parent@[#[trigger] r[j]] as int == r[j - 1] && r[j] != r[j - 1],
        ensures
            walk_cost(s, r.take(k + 1)) <= self.cost@[r[k]],
        decreases k,
    {
        reveal(Labels::anchored);
        lemma_cost_step(s, r, k);
        assert(self.seen@[r[k]]);
        assert(self.anchored(s, r[k]));
        if k == 0 {
            assert(r.take(0) =~= Seq::<int>::empty());
        } else {
            self.lemma_trace_cost(s, r, k - 1);
        }
    }
}

} // verus!
