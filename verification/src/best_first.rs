//! Best-first search with a closed set: uniform-cost search, and the same search
//! guided by the consistent estimate of the space.

use crate::frontier::{Frontier, Ticket};
use crate::graph::{
    as_walk, bias, connects, is_answer, lemma_bias_telescopes, lemma_first_open,
    lemma_relaxed_close, lemma_relaxed_lower, lemma_short_walk, relaxed, walk_cost, SearchSpace,
    MAX_NODES, MAX_TOLL,
};
use crate::labels::Labels;
use vstd::multiset::Multiset;
use vstd::prelude::*;

verus! {

/// Number of cells not yet finished.
spec fn count_open(done: Seq<bool>) -> nat
    decreases done.len(),
{
    if done.len() == 0 {
        0
    } else {
        count_open(done.drop_last()) + if done.last() {
            0nat
        } else {
            1nat
        }
    }
}

/// Finishing an unfinished cell leaves one fewer.
proof fn lemma_count_close(done: Seq<bool>, v: int)
    requires
        0 <= v < done.len(),
        !done[v],
    ensures
        count_open(done.update(v, true)) + 1 == count_open(done),
    decreases done.len(),
{
    if v == done.len() - 1 {
        assert(done.update(v, true).drop_last() =~= done.drop_last());
    } else {
        assert(done.update(v, true).drop_last() =~= done.drop_last().update(v, true));
        lemma_count_close(done.drop_last(), v);
    }
}

/// No more cells are unfinished than there are cells.
proof fn lemma_count_bound(done: Seq<bool>)
    ensures
        count_open(done) <= done.len(),
    decreases done.len(),
{
    if done.len() > 0 {
        lemma_count_bound(done.drop_last());
    }
}

/// How the frontier relates to the labels: every reached, unfinished cell waits
/// with a ticket at its current priority (`live` names it), no ticket is cheaper
/// than its cell's current priority, nothing finished has a higher priority than
/// anything that waits, and no goal is finished.
#[verifier::opaque]
spec fn queued<S: SearchSpace>(
    s: &S,
    guided: bool,
    labels: Labels,
    done: Seq<bool>,
    heap: Multiset<Ticket>,
    live: Seq<Ticket>,
) -> bool {
    &&& done.len() == s.size()
    &&& live.len() == s.size()
    &&& forall|v: int|
        0 <= v < s.size() && #[trigger] done[v] ==> labels.seen@[v] && !s.is_goal(v)
    &&& forall|v: int|
        0 <= v < s.size() && labels.seen@[v] && !done[v] ==> heap.contains(#[trigger] live[v])
            && live[v].node == v && live[v].key == labels.cost@[v] + bias(s, guided, v)
    &&& forall|t: Ticket| #[trigger]
        heap.contains(t) ==> t.node < s.size() && labels.seen@[t.node as int] && t.key
            >= labels.cost@[t.node as int] + bias(s, guided, t.node as int)
    &&& forall|x: int, t: Ticket|
        0 <= x < s.size() && #[trigger] done[x] && #[trigger] heap.contains(t) ==> labels.cost@[x]
            + bias(s, guided, x) <= t.key
}

/// A finished cell has been reached.
proof fn lemma_done_seen<S: SearchSpace>(
    s: &S,
    guided: bool,
    labels: Labels,
    done: Seq<bool>,
    heap: Multiset<Ticket>,
    live: Seq<Ticket>,
    v: int,
)
    requires
        queued(s, guided, labels, done, heap, live),
        0 <= v < s.size(),
        done[v],
    ensures
        labels.seen@[v],
        !s.is_goal(v),
{
    reveal(queued);
}

/// A reached, unfinished cell waits in the frontier at its current priority, and
/// its ticket says so.
proof fn lemma_waiting<S: SearchSpace>(
    s: &S,
    guided: bool,
    labels: Labels,
    done: Seq<bool>,
    heap: Multiset<Ticket>,
    live: Seq<Ticket>,
    v: int,
)
    requires
        queued(s, guided, labels, done, heap, live),
        0 <= v < s.size(),
        labels.seen@[v],
        !done[v],
    ensures
        heap.contains(live[v]),
        live[v].key == labels.cost@[v] + bias(s, guided, v),
{
    reveal(queued);
}

/// Every ticket names a reached cell and is no cheaper than its current priority.
proof fn lemma_ticket<S: SearchSpace>(
    s: &S,
    guided: bool,
    labels: Labels,
    done: Seq<bool>,
    heap: Multiset<Ticket>,
    live: Seq<Ticket>,
    t: Ticket,
)
    requires
        queued(s, guided, labels, done, heap, live),
        heap.contains(t),
    ensures
        t.node < s.size(),
        done.len() == s.size(),
        labels.seen@[t.node as int],
        t.key >= labels.cost@[t.node as int] + bias(s, guided, t.node as int),
{
    reveal(queued);
}

/// No goal is finished.
proof fn lemma_done_or_goal<S: SearchSpace>(
    s: &S,
    guided: bool,
    labels: Labels,
    done: Seq<bool>,
    heap: Multiset<Ticket>,
    live: Seq<Ticket>,
    v: int,
)
    requires
        queued(s, guided, labels, done, heap, live),
        0 <= v < s.size(),
        s.is_goal(v),
    ensures
        !done[v],
{
    reveal(queued);
}

/// Taking out a ticket whose cell is already finished keeps the frontier in order.
proof fn lemma_drop_stale<S: SearchSpace>(
    s: &S,
    guided: bool,
    labels: Labels,
    done: Seq<bool>,
    heap: Multiset<Ticket>,
    live: Seq<Ticket>,
    t: Ticket,
)
    requires
        queued(s, guided, labels, done, heap, live),
        heap.contains(t),
        done[t.node as int],
    ensures
        queued(s, guided, labels, done, heap.remove(t), live),
{
    reveal(queued);
    broadcast use vstd::multiset::group_multiset_axioms;

    let rest = heap.remove(t);
    assert forall|u: Ticket| #[trigger] rest.contains(u) implies heap.contains(u) by {}
    assert forall|v: int| 0 <= v < s.size() && labels.seen@[v] && !done[v] implies rest.contains(
        #[trigger] live[v],
    ) && live[v].node == v && live[v].key == labels.cost@[v] + bias(s, guided, v) by {
        assert(heap.contains(live[v]));
        assert(live[v] != t);
    }
}

/// Taking out the first ticket and finishing its cell keeps the frontier in
/// order; the ticket carried the cell's current priority, and nothing finished has
/// a higher one.
proof fn lemma_close<S: SearchSpace>(
    s: &S,
    guided: bool,
    labels: Labels,
    done: Seq<bool>,
    heap: Multiset<Ticket>,
    live: Seq<Ticket>,
    t: Ticket,
)
    requires
        queued(s, guided, labels, done, heap, live),
        heap.contains(t),
        forall|u: Ticket| heap.contains(u) ==> !u.before(t),
        !done[t.node as int],
        !s.is_goal(t.node as int),
    ensures
        queued(s, guided, labels, done.update(t.node as int, true), heap.remove(t), live),
        t.key == labels.cost@[t.node as int] + bias(s, guided, t.node as int),
        forall|x: int|
            0 <= x < s.size() && #[trigger] done.update(t.node as int, true)[x] ==> labels.cost@[x]
                + bias(s, guided, x) <= t.key,
{
    reveal(queued);
    broadcast use vstd::multiset::group_multiset_axioms;

    let v = t.node as int;
    let rest = heap.remove(t);
    let closed = done.update(v, true);
    assert(heap.contains(live[v]));
    assert(!live[v].before(t));
    assert forall|u: Ticket| #[trigger] rest.contains(u) implies heap.contains(u) by {}
    assert forall|x: int| 0 <= x < s.size() && labels.seen@[x] && !closed[x] implies rest.contains(
        #[trigger] live[x],
    ) && live[x].node == x && live[x].key == labels.cost@[x] + bias(s, guided, x) by {
        assert(heap.contains(live[x]));
        assert(live[x] != t);
    }
    assert forall|x: int| 0 <= x < s.size() && #[trigger] closed[x] implies labels.cost@[x] + bias(
        s,
        guided,
        x,
    ) <= t.key by {
        if x != v {
            assert(done[x]);
        }
    }
    assert forall|x: int, u: Ticket|
        0 <= x < s.size() && #[trigger] closed[x] && #[trigger] rest.contains(u) implies labels.cost@[x]
            + bias(s, guided, x) <= u.key by {
        assert(heap.contains(u));
        assert(!u.before(t));
    }
    assert forall|x: int| 0 <= x < s.size() && #[trigger] closed[x] implies labels.seen@[x]
        && !s.is_goal(x) by {
        if x != v {
            assert(done[x]);
        }
    }
}

/// Lowering the label of an unfinished cell and queueing a ticket at its new
/// priority keeps the frontier in order.
proof fn lemma_queue<S: SearchSpace>(
    s: &S,
    guided: bool,
    before: Labels,
    after: Labels,
    done: Seq<bool>,
    heap: Multiset<Ticket>,
    live: Seq<Ticket>,
    t: Ticket,
)
    requires
        queued(s, guided, before, done, heap, live),
        before.cost@.len() == s.size(),
        before.seen@.len() == s.size(),
        t.node < s.size(),
        !done[t.node as int],
        after.seen@ == before.seen@.update(t.node as int, true),
        after.cost@.len() == s.size(),
        forall|x: int| 0 <= x < s.size() && x != t.node ==> after.cost@[x] == before.cost@[x],
        before.seen@[t.node as int] ==> after.cost@[t.node as int] <= before.cost@[t.node as int],
        t.key == after.cost@[t.node as int] + bias(s, guided, t.node as int),
        forall|x: int|
            0 <= x < s.size() && #[trigger] done[x] ==> before.cost@[x] + bias(s, guided, x) <= t.key,
    ensures
        queued(s, guided, after, done, heap.insert(t), live.update(t.node as int, t)),
{
    reveal(queued);
    broadcast use vstd::multiset::group_multiset_axioms;

    let w = t.node as int;
    let more = heap.insert(t);
    let live2 = live.update(w, t);
    assert forall|u: Ticket| #[trigger] more.contains(u) implies u == t || heap.contains(u) by {}
    assert forall|x: int| 0 <= x < s.size() && after.seen@[x] && !done[x] implies more.contains(
        #[trigger] live2[x],
    ) && live2[x].node == x && live2[x].key == after.cost@[x] + bias(s, guided, x) by {
        if x != w {
            assert(before.seen@[x]);
            assert(live2[x] == live[x]);
            assert(heap.contains(live[x]));
        }
    }
    assert forall|u: Ticket| #[trigger] more.contains(u) implies u.node < s.size()
        && after.seen@[u.node as int] && u.key >= after.cost@[u.node as int] + bias(
        s,
        guided,
        u.node as int,
    ) by {
        if u != t {
            assert(heap.contains(u));
        }
    }
    assert forall|x: int, u: Ticket|
        0 <= x < s.size() && #[trigger] done[x] && #[trigger] more.contains(u) implies after.cost@[x]
            + bias(s, guided, x) <= u.key by {
        if u != t {
            assert(heap.contains(u));
        }
    }
    assert forall|x: int| 0 <= x < s.size() && #[trigger] done[x] implies after.seen@[x]
        && !s.is_goal(x) by {}
}

/// The bias of `v`, computed.
fn bias_of<S: SearchSpace>(s: &S, guided: bool, v: usize) -> (h: u64)
    requires
        s.wf(),
        v < s.size(),
    ensures
        h == bias(s, guided, v as int),
        h <= MAX_TOLL * s.size(),
{
    proof {
        s.lemma_limits(v as int);
    }
    if guided {
        s.estimate(v)
    } else {
        0
    }
}

/// Reaches every passable start and queues it.
fn seed<S: SearchSpace>(
    s: &S,
    guided: bool,
    labels: &mut Labels,
    done: &Vec<bool>,
    heap: &mut Frontier,
) -> (live: Ghost<Seq<Ticket>>)
    requires
        s.wf(),
        old(labels).wf(s),
        forall|v: int| 0 <= v < s.size() ==> !old(labels).seen@[v],
        done@.len() == s.size(),
        forall|v: int| 0 <= v < s.size() ==> !done@[v],
        old(heap).wf(),
        old(heap)@ == Multiset::<Ticket>::empty(),
    ensures
        final(labels).wf(s),
        final(heap).wf(),
        queued(s, guided, *final(labels), done@, final(heap)@, live@),
        relaxed(s, MAX_TOLL as nat * s.size(), final(labels).seen@, done@, final(labels).cost@),
{
    let ghost mut live: Seq<Ticket> = Seq::new(
        s.size(),
        |i: int| Ticket { key: 0, round: 0, slot: 0, node: 0 },
    );
    let starts = s.starts();
    let mut i: usize = 0;
    proof {
        reveal(queued);
    }
    while i < starts.len()
        invariant
            s.wf(),
            labels.wf(s),
            heap.wf(),
            i <= starts@.len(),
            done@.len() == s.size(),
            forall|v: int| 0 <= v < s.size() ==> !done@[v],
            forall|k: int|
                0 <= k < starts@.len() ==> (#[trigger] starts@[k]) < s.size() && s.is_start(
                    starts@[k] as int,
                ),
            queued(s, guided, *labels, done@, heap@, live),
            forall|v: int| 0 <= v < s.size() && #[trigger] labels.seen@[v] ==> labels.cost@[v] <= s.toll(v),
            forall|k: int|
                0 <= k < i && s.passable(starts@[k] as int) ==> labels.seen@[(#[trigger] starts@[k]) as int],
        decreases starts@.len() - i,
    {
        let v = starts[i];
        if !labels.seen[v] {
            match s.cost(v) {
                Some(toll) => {
                    proof {
                        s.lemma_limits(v as int);
                    }
                    let h = bias_of(s, guided, v);
                    let ticket = Ticket { key: toll as u64 + h, round: 0, slot: i, node: v };
                    let ghost before = *labels;
                    let ghost heap0 = heap@;
                    labels.plant(s, v, toll);
                    heap.push(ticket);
                    proof {
                        lemma_queue(s, guided, before, *labels, done@, heap0, live, ticket);
                        live = live.update(v as int, ticket);
                    }
                },
                None => {},
            }
        }
        i += 1;
    }
    proof {
        reveal(relaxed);
        assert forall|v: int| 0 <= v < s.size() && s.is_start(v) && s.passable(v) implies #[trigger]
            labels.seen@[v] && labels.cost@[v] <= s.toll(v) by {
            let k = choose|k: int| 0 <= k < starts@.len() && #[trigger] starts@[k] == v;
            assert(labels.seen@[starts@[k] as int]);
        }
    }
    Ghost(live)
}

/// Tries every move out of the cell `v`, which has just been finished.
fn expand<S: SearchSpace>(
    s: &S,
    guided: bool,
    labels: &mut Labels,
    done: &Vec<bool>,
    heap: &mut Frontier,
    Ghost(live0): Ghost<Seq<Ticket>>,
    v: usize,
    round: usize,
) -> (out: Ghost<Seq<Ticket>>)
    requires
        s.wf(),
        v < s.size(),
        done@.len() == s.size(),
        done@[v as int],
        old(labels).wf(s),
        old(heap).wf(),
        queued(s, guided, *old(labels), done@, old(heap)@, live0),
        relaxed(
            s,
            MAX_TOLL as nat * s.size(),
            old(labels).seen@,
            done@.update(v as int, false),
            old(labels).cost@,
        ),
        forall|x: int|
            0 <= x < s.size() && #[trigger] done@[x] ==> old(labels).cost@[x] + bias(s, guided, x)
                <= old(labels).cost@[v as int] + bias(s, guided, v as int),
    ensures
        final(labels).wf(s),
        final(heap).wf(),
        queued(s, guided, *final(labels), done@, final(heap)@, out@),
        relaxed(s, MAX_TOLL as nat * s.size(), final(labels).seen@, done@, final(labels).cost@),
{
    let ghost mut live = live0;
    let ghost cap = MAX_TOLL as nat * s.size();
    let ghost open = done@.update(v as int, false);
    let n = s.node_count();
    let limit: u64 = MAX_TOLL * (n as u64);
    let base: u64 = labels.cost[v];
    proof {
        lemma_done_seen(s, guided, *labels, done@, heap@, live, v as int);
        labels.lemma_anchor(s, v as int);
    }
    let succ = s.successors(v);
    let mut j: usize = 0;
    while j < succ.len()
        invariant
            s.wf(),
            v < s.size(),
            n == s.size(),
            limit == cap,
            cap == MAX_TOLL as nat * s.size(),
            n <= MAX_NODES,
            done@.len() == s.size(),
            done@[v as int],
            open == done@.update(v as int, false),
            labels.wf(s),
            labels.seen@[v as int],
            heap.wf(),
            j <= succ@.len(),
            base == labels.cost@[v as int],
            base <= limit,
            forall|k: int|
                0 <= k < succ@.len() ==> (#[trigger] succ@[k]) < s.size() && s.adjacent(
                    v as int,
                    succ@[k] as int,
                ),
            queued(s, guided, *labels, done@, heap@, live),
            relaxed(s, cap, labels.seen@, open, labels.cost@),
            forall|x: int|
                0 <= x < s.size() && #[trigger] done@[x] ==> labels.cost@[x] + bias(s, guided, x)
                    <= base + bias(s, guided, v as int),
            forall|k: int|
                0 <= k < j && s.passable(succ@[k] as int) && base + s.toll(succ@[k] as int) <= cap
                    ==> labels.seen@[(#[trigger] succ@[k]) as int] && labels.cost@[succ@[k] as int]
                    <= base + s.toll(succ@[k] as int),
        decreases succ@.len() - j,
    {
        let w = succ[j];
        proof {
            s.lemma_limits(w as int);
        }
        match s.cost(w) {
            Some(toll) => {
                let c: u64 = base + toll as u64;
                proof {
                    if guided {
                        s.lemma_estimate_step(v as int, w as int);
                    }
                }
                if done[w] {
                    proof {
                        lemma_done_seen(s, guided, *labels, done@, heap@, live, w as int);
                    }
                } else if c <= limit && (!labels.seen[w] || c < labels.cost[w]) {
                    let h = bias_of(s, guided, w);
                    let ticket = Ticket { key: c + h, round: round, slot: j, node: w };
                    let ghost before = *labels;
                    let ghost heap0 = heap@;
                    labels.graft(s, v, w, c);
                    heap.push(ticket);
                    proof {
                        lemma_queue(s, guided, before, *labels, done@, heap0, live, ticket);
                        lemma_relaxed_lower(s, cap, before.seen@, open, before.cost@, w as int, c);
                        assert(open.update(w as int, false) =~= open);
                        live = live.update(w as int, ticket);
                    }
                }
            },
            None => {},
        }
        j += 1;
    }
    proof {
        assert forall|w: int|
            0 <= w < s.size() && s.passable(w) && #[trigger] s.adjacent(v as int, w)
                && labels.cost@[v as int] + s.toll(w) <= cap implies labels.seen@[w]
            && labels.cost@[w] <= labels.cost@[v as int] + s.toll(w) by {
            let k = choose|k: int| 0 <= k < succ@.len() && #[trigger] succ@[k] == w;
            assert(labels.seen@[succ@[k] as int]);
        }
        lemma_relaxed_close(s, cap, labels.seen@, open, labels.cost@, v as int);
        assert(open.update(v as int, true) =~= done@);
    }
    Ghost(live)
}

/// Best-first search over `s`: cells are finished in order of accumulated cost plus
/// bias, ties in the order in which they were queued, until a goal comes up or
/// nothing waits any more.
pub fn best_first<S: SearchSpace>(s: &S, guided: bool) -> (out: Option<(Vec<usize>, u64)>)
    requires
        s.wf(),
    ensures
        is_answer(s, out),
{
    let n = s.node_count();
    let ghost cap = MAX_TOLL as nat * s.size();
    let mut labels = Labels::new(s);
    let mut done: Vec<bool> = vec![false; n];
    let mut heap = Frontier::new();
    let seeded = seed(s, guided, &mut labels, &done, &mut heap);
    let ghost mut live = seeded@;
    let mut round: usize = 0;
    proof {
        lemma_count_bound(done@);
    }
    loop
        invariant
            s.wf(),
            n == s.size(),
            cap == MAX_TOLL as nat * s.size(),
            labels.wf(s),
            heap.wf(),
            done@.len() == n,
            queued(s, guided, labels, done@, heap@, live),
            relaxed(s, cap, labels.seen@, done@, labels.cost@),
            round + count_open(done@) <= n,
        decreases count_open(done@), heap@.len(),
    {
        let ghost heap0 = heap@;
        let popped = heap.pop();
        match popped {
            None => {
                proof {
                    assert forall|q: Seq<int>| !connects(s, q) by {
                        if connects(s, q) {
                            let r = lemma_short_walk(s, q);
                            lemma_done_or_goal(s, guided, labels, done@, heap0, live, r.last());
                            let w = lemma_first_open(s, cap, labels.seen@, done@, labels.cost@, r, 0);
                            lemma_waiting(s, guided, labels, done@, heap0, live, r[w]);
                        }
                    }
                }
                return None;
            },
            Some(t) => {
                let v = t.node;
                proof {
                    lemma_ticket(s, guided, labels, done@, heap0, live, t);
                }
                if done[v] {
                    proof {
                        lemma_drop_stale(s, guided, labels, done@, heap0, live, t);
                    }
                } else if s.goal(v) {
                    let path = labels.trace(s, v);
                    let total = labels.cost[v];
                    proof {
                        s.lemma_estimate_goal(v as int);
                        labels.lemma_anchor(s, v as int);
                        assert forall|q: Seq<int>| connects(s, q) implies total <= #[trigger] walk_cost(
                            s,
                            q,
                        ) by {
                            if walk_cost(s, q) <= cap {
                                lemma_done_or_goal(s, guided, labels, done@, heap0, live, q.last());
                                let w = lemma_first_open(s, cap, labels.seen@, done@, labels.cost@, q, 0);
                                lemma_waiting(s, guided, labels, done@, heap0, live, q[w]);
                                assert(!live[q[w]].before(t));
                                lemma_bias_telescopes(s, guided, q, w + 1);
                                s.lemma_estimate_goal(q.last());
                            }
                        }
                        assert(connects(s, as_walk(path@)));
                    }
                    return Some((path, total));
                } else {
                    let ghost done0 = done@;
                    proof {
                        lemma_count_close(done0, v as int);
                        lemma_close(s, guided, labels, done0, heap0, live, t);
                    }
                    done[v] = true;
                    round = round + 1;
                    proof {
                        assert(done@ =~= done0.update(v as int, true));
                        assert(done@.update(v as int, false) =~= done0);
                    }
                    let grown = expand(s, guided, &mut labels, &done, &mut heap, Ghost(live), v, round);
                    proof {
                        live = grown@;
                    }
                }
            },
        }
    }
}

/// Uniform-cost search: an optimal route from a start to a goal, found without
/// any estimate.
pub fn dijkstra<S: SearchSpace>(s: &S) -> (out: Option<(Vec<usize>, u64)>)
    requires
        s.wf(),
    ensures
        is_answer(s, out),
{
    best_first(s, false)
}

/// Heuristic-guided search: an optimal route from a start to a goal, found by
/// preferring cells whose cost so far plus estimated remaining cost is least.
pub fn astar<S: SearchSpace>(s: &S) -> (out: Option<(Vec<usize>, u64)>)
    requires
        s.wf(),
    ensures
        is_answer(s, out),
{
    best_first(s, true)
}

} // verus!
