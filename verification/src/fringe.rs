//! Fringe search: depth-first expansion under a cost threshold that rises, pass
//! by pass, to the lowest priority that was put off in the pass before.

use crate::graph::{
    as_walk, connects, is_answer, lemma_bias_telescopes, lemma_cost_step, lemma_first_open,
    lemma_relaxed_close, lemma_relaxed_lower, lemma_short_walk, relaxed, walk_cost, SearchSpace,
    MAX_NODES, MAX_TOLL,
};
use crate::labels::Labels;
use vstd::prelude::*;

verus! {

/// The cell is in neither list.
const IDLE: u8 = 0;

/// The cell waits in the list of the current pass.
const NOW: u8 = 1;

/// The cell was put off to the next pass.
const LATER: u8 = 2;

/// The two lists of the fringe and, for each cell, the list it is in.
///
/// An entry holds a cell and the cost the cell had when it was listed; an entry
/// counts only while the cell is still marked for that list at that cost. `now` is
/// served from its end. `done` and `at` are bookkeeping for the proofs: which cells
/// have been expanded and not listed again, and where the entry of a listed cell
/// stands.
struct Lists {
    place: Vec<u8>,
    now: Vec<(usize, u64)>,
    later: Vec<(usize, u64)>,
    done: Ghost<Seq<bool>>,
    at: Ghost<Seq<int>>,
}

/// The entry `e` names cell `v` at cost `c`.
spec fn entry_is(e: (usize, u64), v: int, c: u64) -> bool {
    e.0 as int == v && e.1 == c
}

/// The lists agree with the labels: a cell is done exactly when it was reached and
/// is in no list, no goal is done, and every listed cell has an entry at its
/// current cost in its list.
#[verifier::opaque]
spec fn listed<S: SearchSpace>(s: &S, labels: Labels, lists: Lists) -> bool {
    let place = lists.place@;
    let done = lists.done@;
    let at = lists.at@;
    &&& labels.seen@.len() == s.size()
    &&& labels.cost@.len() == s.size()
    &&& place.len() == s.size()
    &&& done.len() == s.size()
    &&& at.len() == s.size()
    &&& forall|k: int| 0 <= k < lists.now@.len() ==> (#[trigger] lists.now@[k]).0 < s.size()
    &&& forall|k: int| 0 <= k < lists.later@.len() ==> (#[trigger] lists.later@[k]).0 < s.size()
    &&& forall|v: int|
        0 <= v < s.size() ==> (#[trigger] done[v] <==> labels.seen@[v] && place[v] == IDLE)
    &&& forall|v: int| 0 <= v < s.size() && #[trigger] done[v] ==> !s.is_goal(v)
    &&& forall|v: int|
        0 <= v < s.size() ==> (#[trigger] place[v]) == IDLE || place[v] == NOW || place[v] == LATER
    &&& forall|v: int|
        0 <= v < s.size() && #[trigger] place[v] == NOW ==> labels.seen@[v] && 0 <= at[v]
            < lists.now@.len() && entry_is(lists.now@[at[v]], v, labels.cost@[v])
    &&& forall|v: int|
        0 <= v < s.size() && #[trigger] place[v] == LATER ==> labels.seen@[v] && 0 <= at[v]
            < lists.later@.len() && entry_is(lists.later@[at[v]], v, labels.cost@[v])
}

/// No route from a start to a goal within `cap` costs less than `flimit`.
#[verifier::opaque]
spec fn threshold<S: SearchSpace>(s: &S, cap: nat, flimit: nat) -> bool {
    forall|q: Seq<int>| connects(s, q) && #[trigger] walk_cost(s, q) <= cap ==> flimit <= walk_cost(s, q)
}

/// Every cell put off to the next pass has a priority of at least `fmin`.
spec fn put_off<S: SearchSpace>(s: &S, labels: Labels, lists: Lists, fmin: nat) -> bool {
    forall|v: int|
        0 <= v < s.size() && #[trigger] lists.place@[v] == LATER ==> fmin <= labels.cost@[v]
            + s.remaining(v)
}

/// What is left to gain: the recorded cost of every reached cell among the first
/// `n`, and one more than `cap` for every cell not reached.
spec fn slack(seen: Seq<bool>, cost: Seq<u64>, cap: nat, n: int) -> nat
    decreases n,
{
    if n <= 0 {
        0
    } else {
        slack(seen, cost, cap, n - 1) + if seen[n - 1] {
            cost[n - 1] as nat
        } else {
            cap + 1
        }
    }
}

/// A better label for one cell lowers the slack.
proof fn lemma_slack_lower(seen: Seq<bool>, cost: Seq<u64>, cap: nat, n: int, w: int, c: u64)
    requires
        0 <= w < seen.len(),
        seen.len() == cost.len(),
        0 <= n <= seen.len(),
        c <= cap,
        seen[w] ==> c < cost[w],
    ensures
        w < n ==> slack(seen.update(w, true), cost.update(w, c), cap, n) < slack(seen, cost, cap, n),
        w >= n ==> slack(seen.update(w, true), cost.update(w, c), cap, n) == slack(seen, cost, cap, n),
    decreases n,
{
    if n > 0 {
        lemma_slack_lower(seen, cost, cap, n - 1, w, c);
    }
}

/// A listed or finished cell lies in the space; an entry that counts names a
/// reached, unfinished cell.
proof fn lemma_entry<S: SearchSpace>(s: &S, labels: Labels, lists: Lists, k: int)
    requires
        listed(s, labels, lists),
        0 <= k < lists.now@.len(),
    ensures
        lists.now@[k].0 < s.size(),
        lists.place@.len() == s.size(),
        lists.done@.len() == s.size(),
        lists.place@[lists.now@[k].0 as int] == NOW ==> labels.seen@[lists.now@[k].0 as int]
            && !lists.done@[lists.now@[k].0 as int],
{
    reveal(listed);
}

/// An entry put off names a cell of the space.
proof fn lemma_entry_later<S: SearchSpace>(s: &S, labels: Labels, lists: Lists, k: int)
    requires
        listed(s, labels, lists),
        0 <= k < lists.later@.len(),
    ensures
        lists.later@[k].0 < s.size(),
        lists.place@.len() == s.size(),
{
    reveal(listed);
}

/// One mark, one flag and one label per cell.
proof fn lemma_sizes<S: SearchSpace>(s: &S, labels: Labels, lists: Lists)
    requires
        listed(s, labels, lists),
    ensures
        lists.place@.len() == s.size(),
        lists.done@.len() == s.size(),
        lists.at@.len() == s.size(),
        labels.seen@.len() == s.size(),
        labels.cost@.len() == s.size(),
{
    reveal(listed);
}

/// A reached, unfinished cell is in one of the two lists, which is then not empty;
/// no goal is finished.
proof fn lemma_in_fringe<S: SearchSpace>(s: &S, labels: Labels, lists: Lists, v: int)
    requires
        listed(s, labels, lists),
        0 <= v < s.size(),
    ensures
        lists.done@.len() == s.size(),
        s.is_goal(v) ==> !lists.done@[v],
        lists.done@[v] ==> labels.seen@[v],
        labels.seen@[v] && !lists.done@[v] ==> (lists.place@[v] == NOW && lists.now@.len() > 0) || (
        lists.place@[v] == LATER && lists.later@.len() > 0),
{
    reveal(listed);
}

/// Dropping an entry of `now` that no longer counts changes nothing.
proof fn lemma_skip<S: SearchSpace>(s: &S, labels: Labels, a: Lists, b: Lists)
    requires
        listed(s, labels, a),
        a.now@.len() > 0,
        !(a.place@[a.now@.last().0 as int] == NOW && labels.cost@[a.now@.last().0 as int]
            == a.now@.last().1),
        b.now@ == a.now@.drop_last(),
        b.place@ == a.place@,
        b.later@ == a.later@,
        b.done@ == a.done@,
        b.at@ == a.at@,
    ensures
        listed(s, labels, b),
{
    reveal(listed);
    assert forall|v: int| 0 <= v < s.size() && #[trigger] b.place@[v] == NOW implies labels.seen@[v]
        && 0 <= b.at@[v] < b.now@.len() && entry_is(b.now@[b.at@[v]], v, labels.cost@[v]) by {
        assert(entry_is(a.now@[a.at@[v]], v, labels.cost@[v]));
    }
}

/// Moving the last entry of `now`, which counts, to `later`.
proof fn lemma_defer<S: SearchSpace>(s: &S, labels: Labels, a: Lists, b: Lists)
    requires
        listed(s, labels, a),
        a.now@.len() > 0,
        a.place@[a.now@.last().0 as int] == NOW,
        labels.cost@[a.now@.last().0 as int] == a.now@.last().1,
        b.now@ == a.now@.drop_last(),
        b.place@ == a.place@.update(a.now@.last().0 as int, LATER),
        b.later@ == a.later@.push(a.now@.last()),
        b.done@ == a.done@,
        b.at@ == a.at@.update(a.now@.last().0 as int, a.later@.len() as int),
    ensures
        listed(s, labels, b),
{
    reveal(listed);
    let v = a.now@.last().0 as int;
    assert(a.now@[a.now@.len() - 1].0 < s.size());
    assert forall|x: int| 0 <= x < s.size() && #[trigger] b.place@[x] == NOW implies labels.seen@[x]
        && 0 <= b.at@[x] < b.now@.len() && entry_is(b.now@[b.at@[x]], x, labels.cost@[x]) by {
        assert(a.place@[x] == NOW);
        assert(entry_is(a.now@[a.at@[x]], x, labels.cost@[x]));
    }
    assert forall|x: int| 0 <= x < s.size() && #[trigger] b.place@[x] == LATER implies labels.seen@[x]
        && 0 <= b.at@[x] < b.later@.len() && entry_is(b.later@[b.at@[x]], x, labels.cost@[x]) by {
        if x != v {
            assert(a.place@[x] == LATER);
        } else {
            assert(a.place@[x] == NOW);
        }
    }
    assert forall|x: int| 0 <= x < s.size() implies (#[trigger] b.done@[x] <==> labels.seen@[x]
        && b.place@[x] == IDLE) by {
        assert(a.done@[x] <==> labels.seen@[x] && a.place@[x] == IDLE);
        if x == v {
            assert(a.place@[x] == NOW);
        }
    }
    assert forall|k: int| 0 <= k < b.later@.len() implies (#[trigger] b.later@[k]).0 < s.size() by {
        if k < a.later@.len() {
            assert(b.later@[k] == a.later@[k]);
        }
    }
    assert forall|x: int| 0 <= x < s.size() implies (#[trigger] b.place@[x]) == IDLE || b.place@[x]
        == NOW || b.place@[x] == LATER by {
        assert(a.place@[x] == IDLE || a.place@[x] == NOW || a.place@[x] == LATER);
    }
}

/// Taking the last entry of `now`, which counts and names no goal, out of the
/// lists to expand its cell.
proof fn lemma_take<S: SearchSpace>(s: &S, labels: Labels, a: Lists, b: Lists)
    requires
        listed(s, labels, a),
        a.now@.len() > 0,
        a.place@[a.now@.last().0 as int] == NOW,
        labels.cost@[a.now@.last().0 as int] == a.now@.last().1,
        !s.is_goal(a.now@.last().0 as int),
        b.now@ == a.now@.drop_last(),
        b.place@ == a.place@.update(a.now@.last().0 as int, IDLE),
        b.later@ == a.later@,
        b.done@ == a.done@.update(a.now@.last().0 as int, true),
        b.at@ == a.at@,
    ensures
        listed(s, labels, b),
        labels.seen@[a.now@.last().0 as int],
        !a.done@[a.now@.last().0 as int],
{
    reveal(listed);
    let v = a.now@.last().0 as int;
    assert(a.now@[a.now@.len() - 1].0 < s.size());
    assert(a.place@[v] == NOW);
    assert(a.done@[v] <==> labels.seen@[v] && a.place@[v] == IDLE);
    assert forall|x: int| 0 <= x < s.size() && #[trigger] b.place@[x] == NOW implies labels.seen@[x]
        && 0 <= b.at@[x] < b.now@.len() && entry_is(b.now@[b.at@[x]], x, labels.cost@[x]) by {
        assert(a.place@[x] == NOW);
        assert(entry_is(a.now@[a.at@[x]], x, labels.cost@[x]));
    }
    assert forall|x: int| 0 <= x < s.size() && #[trigger] b.place@[x] == LATER implies labels.seen@[x]
        && 0 <= b.at@[x] < b.later@.len() && entry_is(b.later@[b.at@[x]], x, labels.cost@[x]) by {
        assert(a.place@[x] == LATER);
    }
    assert forall|x: int| 0 <= x < s.size() implies (#[trigger] b.done@[x] <==> labels.seen@[x]
        && b.place@[x] == IDLE) by {
        assert(a.done@[x] <==> labels.seen@[x] && a.place@[x] == IDLE);
    }
    assert forall|x: int| 0 <= x < s.size() && #[trigger] b.done@[x] implies !s.is_goal(x) by {
        if x != v {
            assert(a.done@[x]);
        }
    }
    assert forall|x: int| 0 <= x < s.size() implies (#[trigger] b.place@[x]) == IDLE || b.place@[x]
        == NOW || b.place@[x] == LATER by {
        assert(a.place@[x] == IDLE || a.place@[x] == NOW || a.place@[x] == LATER);
    }
}

/// Listing a cell in `now` at a new, lower cost.
proof fn lemma_list<S: SearchSpace>(
    s: &S,
    before: Labels,
    after: Labels,
    a: Lists,
    b: Lists,
    w: int,
    c: u64,
)
    requires
        listed(s, before, a),
        0 <= w < s.size(),
        before.seen@.len() == s.size(),
        before.cost@.len() == s.size(),
        before.seen@[w] ==> c < before.cost@[w],
        after.seen@ == before.seen@.update(w, true),
        after.cost@ == before.cost@.update(w, c),
        b.now@.len() == a.now@.len() + 1,
        b.now@.drop_last() == a.now@,
        entry_is(b.now@.last(), w, c),
        b.place@ == a.place@.update(w, NOW),
        b.later@ == a.later@,
        b.done@ == a.done@.update(w, false),
        b.at@ == a.at@.update(w, a.now@.len() as int),
    ensures
        listed(s, after, b),
{
    reveal(listed);
    assert forall|x: int| 0 <= x < s.size() && #[trigger] b.place@[x] == NOW implies after.seen@[x]
        && 0 <= b.at@[x] < b.now@.len() && entry_is(b.now@[b.at@[x]], x, after.cost@[x]) by {
        if x != w {
            assert(a.place@[x] == NOW);
            assert(entry_is(a.now@[a.at@[x]], x, before.cost@[x]));
        }
    }
    assert forall|x: int| 0 <= x < s.size() && #[trigger] b.place@[x] == LATER implies after.seen@[x]
        && 0 <= b.at@[x] < b.later@.len() && entry_is(b.later@[b.at@[x]], x, after.cost@[x]) by {
        assert(a.place@[x] == LATER);
    }
    assert forall|x: int| 0 <= x < s.size() implies (#[trigger] b.done@[x] <==> after.seen@[x]
        && b.place@[x] == IDLE) by {
        assert(a.done@[x] <==> before.seen@[x] && a.place@[x] == IDLE);
    }
    assert forall|x: int| 0 <= x < s.size() && #[trigger] b.done@[x] implies !s.is_goal(x) by {
        assert(a.done@[x]);
    }
    assert forall|k: int| 0 <= k < b.now@.len() implies (#[trigger] b.now@[k]).0 < s.size() by {
        if k < a.now@.len() {
            assert(b.now@[k] == a.now@[k]);
        }
    }
    assert forall|x: int| 0 <= x < s.size() implies (#[trigger] b.place@[x]) == IDLE || b.place@[x]
        == NOW || b.place@[x] == LATER by {
        assert(a.place@[x] == IDLE || a.place@[x] == NOW || a.place@[x] == LATER);
    }
}

/// Bringing the last entry of `later` back into `now` if it still counts, and
/// dropping it otherwise.
proof fn lemma_bring_back<S: SearchSpace>(s: &S, labels: Labels, a: Lists, b: Lists)
    requires
        listed(s, labels, a),
        a.later@.len() > 0,
        b.later@ == a.later@.drop_last(),
        b.done@ == a.done@,
        if a.place@[a.later@.last().0 as int] == LATER && labels.cost@[a.later@.last().0 as int]
            == a.later@.last().1 {
            &&& b.now@ == a.now@.push(a.later@.last())
            &&& b.place@ == a.place@.update(a.later@.last().0 as int, NOW)
            &&& b.at@ == a.at@.update(a.later@.last().0 as int, a.now@.len() as int)
        } else {
            &&& b.now@ == a.now@
            &&& b.place@ == a.place@
            &&& b.at@ == a.at@
        },
    ensures
        listed(s, labels, b),
{
    reveal(listed);
    let e = a.later@.last();
    let v = e.0 as int;
    assert(a.later@[a.later@.len() - 1].0 < s.size());
    let counts = a.place@[v] == LATER && labels.cost@[v] == e.1;
    assert forall|x: int| 0 <= x < s.size() && #[trigger] b.place@[x] == NOW implies labels.seen@[x]
        && 0 <= b.at@[x] < b.now@.len() && entry_is(b.now@[b.at@[x]], x, labels.cost@[x]) by {
        if counts && x == v {
            assert(a.place@[x] == LATER);
        } else {
            assert(a.place@[x] == NOW);
            assert(entry_is(a.now@[a.at@[x]], x, labels.cost@[x]));
        }
    }
    assert forall|x: int| 0 <= x < s.size() && #[trigger] b.place@[x] == LATER implies labels.seen@[x]
        && 0 <= b.at@[x] < b.later@.len() && entry_is(b.later@[b.at@[x]], x, labels.cost@[x]) by {
        assert(a.place@[x] == LATER);
        assert(entry_is(a.later@[a.at@[x]], x, labels.cost@[x]));
    }
    assert forall|x: int| 0 <= x < s.size() implies (#[trigger] b.done@[x] <==> labels.seen@[x]
        && b.place@[x] == IDLE) by {
        assert(a.done@[x] <==> labels.seen@[x] && a.place@[x] == IDLE);
        if counts && x == v {
            assert(a.place@[x] == LATER);
        }
    }
    assert forall|k: int| 0 <= k < b.now@.len() implies (#[trigger] b.now@[k]).0 < s.size() by {
        if k < a.now@.len() {
            assert(b.now@[k] == a.now@[k]);
        }
    }
    assert forall|x: int| 0 <= x < s.size() implies (#[trigger] b.place@[x]) == IDLE || b.place@[x]
        == NOW || b.place@[x] == LATER by {
        assert(a.place@[x] == IDLE || a.place@[x] == NOW || a.place@[x] == LATER);
    }
}

/// Reaches every passable start, lists it for the first pass, and returns the
/// first threshold: the least priority among them.
fn seed<S: SearchSpace>(s: &S, labels: &mut Labels, lists: &mut Lists) -> (flimit: u64)
    requires
        s.wf(),
        old(labels).wf(s),
        forall|v: int| 0 <= v < s.size() ==> !old(labels).seen@[v],
        old(lists).place@.len() == s.size(),
        forall|v: int| 0 <= v < s.size() ==> old(lists).place@[v] == IDLE,
        old(lists).now@.len() == 0,
        old(lists).later@.len() == 0,
        old(lists).done@.len() == s.size(),
        forall|v: int| 0 <= v < s.size() ==> !old(lists).done@[v],
        old(lists).at@.len() == s.size(),
    ensures
        final(labels).wf(s),
        listed(s, *final(labels), *final(lists)),
        relaxed(
            s,
            MAX_TOLL as nat * s.size(),
            final(labels).seen@,
            final(lists).done@,
            final(labels).cost@,
        ),
        final(lists).later@.len() == 0,
        threshold(s, MAX_TOLL as nat * s.size(), flimit as nat),
        flimit <= MAX_TOLL as nat * s.size() + MAX_TOLL as nat * s.size(),
{
    let ghost cap = MAX_TOLL as nat * s.size();
    let starts = s.starts();
    let mut flimit: u64 = 0;
    let mut any = false;
    let mut i: usize = starts.len();
    proof {
        reveal(listed);
    }
    while i > 0
        invariant
            s.wf(),
            labels.wf(s),
            i <= starts@.len(),
            forall|k: int|
                0 <= k < starts@.len() ==> (#[trigger] starts@[k]) < s.size() && s.is_start(
                    starts@[k] as int,
                ),
            listed(s, *labels, *lists),
            lists.later@.len() == 0,
            lists.place@.len() == s.size(),
            lists.at@.len() == s.size(),
            lists.done@.len() == s.size(),
            forall|v: int| 0 <= v < s.size() ==> !lists.done@[v],
            forall|v: int|
                0 <= v < s.size() && #[trigger] labels.seen@[v] ==> labels.cost@[v] == s.toll(v)
                    && any && flimit <= s.toll(v) + s.remaining(v),
            forall|k: int|
                i <= k < starts@.len() && s.passable(starts@[k] as int) ==> labels.seen@[(
                #[trigger] starts@[k]) as int],
            flimit <= MAX_TOLL as nat * s.size() + MAX_TOLL as nat * s.size(),
        decreases i,
    {
        i -= 1;
        let v = starts[i];
        if !labels.seen[v] {
            match s.cost(v) {
                Some(toll) => {
                    proof {
                        s.lemma_limits(v as int);
                    }
                    let h = s.estimate(v);
                    proof {
                        assert(MAX_TOLL as nat <= MAX_TOLL as nat * s.size()) by (nonlinear_arith)
                            requires
                                s.size() >= 1,
                        ;
                        assert(s.size() <= MAX_NODES);
                    }
                    let f: u64 = toll as u64 + h;
                    if !any || f < flimit {
                        flimit = f;
                        any = true;
                    }
                    let ghost before = *labels;
                    let ghost a = *lists;
                    labels.plant(s, v, toll);
                    lists.place[v] = NOW;
                    lists.now.push((v, toll as u64));
                    proof {
                        lists.at@ = lists.at@.update(v as int, a.now@.len() as int);
                        assert(lists.done@ =~= a.done@.update(v as int, false));
                        assert(lists.now@.drop_last() =~= a.now@);
                        lemma_list(s, before, *labels, a, *lists, v as int, toll as u64);
                    }
                },
                None => {},
            }
        }
    }
    proof {
        reveal(relaxed);
        reveal(threshold);
        assert forall|v: int| 0 <= v < s.size() && s.is_start(v) && s.passable(v) implies #[trigger]
            labels.seen@[v] && labels.cost@[v] <= s.toll(v) by {
            let k = choose|k: int| 0 <= k < starts@.len() && #[trigger] starts@[k] == v;
            assert(labels.seen@[starts@[k] as int]);
        }
        assert forall|q: Seq<int>| connects(s, q) && #[trigger] walk_cost(s, q) <= cap implies flimit
            <= walk_cost(s, q) by {
            assert(labels.seen@[q[0]]);
            lemma_bias_telescopes(s, true, q, 1);
            lemma_cost_step(s, q, 0);
            assert(q.take(0) =~= Seq::<int>::empty());
            s.lemma_estimate_goal(q.last());
        }
    }
    flimit
}

/// Records that `w` is reached from `v` at the lower cost `c` and lists `w` for
/// the current pass.
fn reach<S: SearchSpace>(s: &S, labels: &mut Labels, lists: &mut Lists, v: usize, w: usize, c: u64)
    requires
        s.wf(),
        v < s.size(),
        w < s.size(),
        old(labels).wf(s),
        listed(s, *old(labels), *old(lists)),
        old(lists).done@[v as int],
        old(labels).seen@[v as int],
        s.passable(w as int),
        s.adjacent(v as int, w as int),
        c == old(labels).cost@[v as int] + s.toll(w as int),
        c <= MAX_TOLL as nat * s.size(),
        !old(labels).seen@[w as int] || c < old(labels).cost@[w as int],
        relaxed(
            s,
            MAX_TOLL as nat * s.size(),
            old(labels).seen@,
            old(lists).done@.update(v as int, false),
            old(labels).cost@,
        ),
    ensures
        final(labels).wf(s),
        listed(s, *final(labels), *final(lists)),
        relaxed(
            s,
            MAX_TOLL as nat * s.size(),
            final(labels).seen@,
            final(lists).done@.update(v as int, false),
            final(labels).cost@,
        ),
        w != v,
        final(lists).done@ == old(lists).done@.update(w as int, false),
        final(lists).later@ == old(lists).later@,
        final(lists).now@.len() == old(lists).now@.len() + 1,
        final(lists).place@ == old(lists).place@.update(w as int, NOW),
        final(labels).seen@ == old(labels).seen@.update(w as int, true),
        final(labels).cost@ == old(labels).cost@.update(w as int, c),
        slack(
            final(labels).seen@,
            final(labels).cost@,
            MAX_TOLL as nat * s.size(),
            s.size() as int,
        ) < slack(old(labels).seen@, old(labels).cost@, MAX_TOLL as nat * s.size(), s.size() as int),
{
    let ghost cap = MAX_TOLL as nat * s.size();
    let ghost before = *labels;
    let ghost a = *lists;
    let ghost open = a.done@.update(v as int, false);
    proof {
        lemma_in_fringe(s, before, a, w as int);
        lemma_sizes(s, before, a);
    }
    labels.graft(s, v, w, c);
    lists.place[w] = NOW;
    lists.now.push((w, c));
    proof {
        lists.done@ = lists.done@.update(w as int, false);
        lists.at@ = lists.at@.update(w as int, a.now@.len() as int);
        assert(lists.now@.drop_last() =~= a.now@);
        lemma_list(s, before, *labels, a, *lists, w as int, c);
        lemma_relaxed_lower(s, cap, before.seen@, open, before.cost@, w as int, c);
        assert(lists.done@.update(v as int, false) =~= open.update(w as int, false));
        lemma_slack_lower(before.seen@, before.cost@, cap, s.size() as int, w as int, c);
    }
}

/// Tries every move out of the cell `v`, which has just been taken out of the
/// lists, and lists every cell that is reached at a lower cost than before.
fn unfold<S: SearchSpace>(s: &S, labels: &mut Labels, lists: &mut Lists, v: usize)
    requires
        s.wf(),
        v < s.size(),
        old(labels).wf(s),
        listed(s, *old(labels), *old(lists)),
        old(lists).done@[v as int],
        relaxed(
            s,
            MAX_TOLL as nat * s.size(),
            old(labels).seen@,
            old(lists).done@.update(v as int, false),
            old(labels).cost@,
        ),
    ensures
        final(labels).wf(s),
        listed(s, *final(labels), *final(lists)),
        relaxed(
            s,
            MAX_TOLL as nat * s.size(),
            final(labels).seen@,
            final(lists).done@,
            final(labels).cost@,
        ),
        final(lists).later@ == old(lists).later@,
        forall|x: int|
            0 <= x < s.size() && #[trigger] final(lists).place@[x] == LATER ==> old(lists).place@[x]
                == LATER && final(labels).cost@[x] == old(labels).cost@[x],
        slack(
            final(labels).seen@,
            final(labels).cost@,
            MAX_TOLL as nat * s.size(),
            s.size() as int,
        ) <= slack(old(labels).seen@, old(labels).cost@, MAX_TOLL as nat * s.size(), s.size() as int),
        slack(
            final(labels).seen@,
            final(labels).cost@,
            MAX_TOLL as nat * s.size(),
            s.size() as int,
        ) < slack(old(labels).seen@, old(labels).cost@, MAX_TOLL as nat * s.size(), s.size() as int)
            || final(lists).now@.len() == old(lists).now@.len(),
{
    let ghost cap = MAX_TOLL as nat * s.size();
    let ghost labels0 = *labels;
    let ghost lists0 = *lists;
    let n = s.node_count();
    let limit: u64 = MAX_TOLL * (n as u64);
    proof {
        lemma_in_fringe(s, *labels, *lists, v as int);
        lemma_sizes(s, *labels, *lists);
        labels.lemma_anchor(s, v as int);
    }
    let base: u64 = labels.cost[v];
    let succ = s.successors(v);
    let mut j: usize = 0;
    while j < succ.len()
        invariant
            s.wf(),
            v < s.size(),
            n == s.size(),
            limit == cap,
            cap == MAX_TOLL as nat * s.size(),
            n <= MAX_NODES,
            labels.wf(s),
            labels0.wf(s),
            labels.seen@[v as int],
            labels.cost@.len() == s.size(),
            labels.seen@.len() == s.size(),
            labels0.cost@.len() == s.size(),
            lists.done@.len() == s.size(),
            lists.place@.len() == s.size(),
            lists.done@[v as int],
            j <= succ@.len(),
            base == labels.cost@[v as int],
            base <= limit,
            forall|k: int|
                0 <= k < succ@.len() ==> (#[trigger] succ@[k]) < s.size() && s.adjacent(
                    v as int,
                    succ@[k] as int,
                ),
            listed(s, *labels, *lists),
            relaxed(s, cap, labels.seen@, lists.done@.update(v as int, false), labels.cost@),
            lists.later@ == lists0.later@,
            lists0.place@.len() == s.size(),
            forall|x: int|
                0 <= x < s.size() && #[trigger] lists.place@[x] == LATER ==> lists0.place@[x] == LATER
                    && labels.cost@[x] == labels0.cost@[x],
            slack(labels.seen@, labels.cost@, cap, n as int) <= slack(
                labels0.seen@,
                labels0.cost@,
                cap,
                n as int,
            ),
            slack(labels.seen@, labels.cost@, cap, n as int) < slack(
                labels0.seen@,
                labels0.cost@,
                cap,
                n as int,
            ) || lists.now@.len() == lists0.now@.len(),
            forall|k: int|
                0 <= k < j && s.passable(succ@[k] as int) && base + s.toll(succ@[k] as int) <= cap
                    ==> labels.seen@[(#[trigger] succ@[k]) as int] && labels.cost@[succ@[k] as int]
                    <= base + s.toll(succ@[k] as int),
        decreases succ@.len() - j,
    {
        let w = succ[j];
        proof {
            s.lemma_limits(w as int);
        }
        match s.cost(w) {
            Some(toll) => {
                let c: u64 = base + toll as u64;
                if c <= limit && (!labels.seen[w] || c < labels.cost[w]) {
                    reach(s, labels, lists, v, w, c);
                }
            },
            None => {},
        }
        j += 1;
    }
    proof {
        let ghost open = lists.done@.update(v as int, false);
        assert forall|w: int|
            0 <= w < s.size() && s.passable(w) && #[trigger] s.adjacent(v as int, w)
                && labels.cost@[v as int] + s.toll(w) <= cap implies labels.seen@[w]
            && labels.cost@[w] <= labels.cost@[v as int] + s.toll(w) by {
            let k = choose|k: int| 0 <= k < succ@.len() && #[trigger] succ@[k] == w;
            assert(labels.seen@[succ@[k] as int]);
        }
        lemma_relaxed_close(s, cap, labels.seen@, open, labels.cost@, v as int);
        assert(open.update(v as int, true) =~= lists.done@);
    }
}

/// Starts the next pass: every entry of `later` that still counts moves to `now`,
/// the one put off first to be served first.
fn refill<S: SearchSpace>(s: &S, labels: &Labels, lists: &mut Lists)
    requires
        s.wf(),
        labels.wf(s),
        listed(s, *labels, *old(lists)),
    ensures
        listed(s, *labels, *final(lists)),
        final(lists).later@.len() == 0,
        final(lists).done@ == old(lists).done@,
{
    let ghost lists0 = *lists;
    while lists.later.len() > 0
        invariant
            s.wf(),
            labels.wf(s),
            listed(s, *labels, *lists),
            lists.done@ == lists0.done@,
        decreases lists.later@.len(),
    {
        let ghost a = *lists;
        proof {
            lemma_entry_later(s, *labels, a, a.later@.len() - 1);
        }
        let (v, g) = lists.later.pop().unwrap();
        if lists.place[v] == LATER && labels.cost[v] == g {
            lists.place[v] = NOW;
            lists.now.push((v, g));
            proof {
                lists.at@ = lists.at@.update(v as int, a.now@.len() as int);
            }
        }
        proof {
            assert(lists.later@ =~= a.later@.drop_last());
            lemma_bring_back(s, *labels, a, *lists);
        }
    }
}

/// Fringe search over `s`: an optimal route from a start to a goal, or `None`
/// exactly when no route connects a start to a goal.
///
/// Each pass expands, depth first, every listed cell whose cost so far plus
/// estimated remaining cost is within the threshold, and puts the others off. The
/// search ends when a goal within the threshold comes up, or when a pass ends with
/// nothing put off; otherwise the threshold rises to the least priority that was
/// put off and the next pass begins.
pub fn fringe<S: SearchSpace>(s: &S) -> (out: Option<(Vec<usize>, u64)>)
    requires
        s.wf(),
    ensures
        is_answer(s, out),
{
    let n = s.node_count();
    let limit: u64 = MAX_TOLL * (n as u64);
    let ghost cap: nat = MAX_TOLL as nat * s.size();
    let mut labels = Labels::new(s);
    let mut lists = Lists {
        place: vec![IDLE; n],
        now: Vec::new(),
        later: Vec::new(),
        done: Ghost(Seq::new(n as nat, |i: int| false)),
        at: Ghost(Seq::new(n as nat, |i: int| 0int)),
    };
    let mut flimit: u64 = seed(s, &mut labels, &mut lists);
    loop
        invariant
            s.wf(),
            n == s.size(),
            limit == cap,
            cap == MAX_TOLL as nat * s.size(),
            n <= MAX_NODES,
            labels.wf(s),
            listed(s, labels, lists),
            relaxed(s, cap, labels.seen@, lists.done@, labels.cost@),
            lists.later@.len() == 0,
            threshold(s, cap, flimit as nat),
            flimit <= limit + limit,
        decreases limit + limit - flimit,
    {
        let mut fmin: u64 = u64::MAX;
        proof {
            lemma_no_later(s, labels, lists);
            lemma_sizes(s, labels, lists);
        }
        while lists.now.len() > 0
            invariant
                s.wf(),
                n == s.size(),
                limit == cap,
                cap == MAX_TOLL as nat * s.size(),
                n <= MAX_NODES,
                labels.wf(s),
                listed(s, labels, lists),
                relaxed(s, cap, labels.seen@, lists.done@, labels.cost@),
                threshold(s, cap, flimit as nat),
                flimit <= limit + limit,
                put_off(s, labels, lists, fmin as nat),
                lists.place@.len() == s.size(),
                lists.done@.len() == s.size(),
                lists.at@.len() == s.size(),
                lists.later@.len() > 0 ==> flimit < fmin <= limit + limit,
                lists.later@.len() == 0 ==> fmin == u64::MAX,
            decreases slack(labels.seen@, labels.cost@, cap, n as int), lists.now@.len(),
        {
            let ghost a = lists;
            proof {
                lemma_entry(s, labels, a, a.now@.len() - 1);
            }
            let (v, g) = lists.now.pop().unwrap();
            proof {
                assert(lists.now@ =~= a.now@.drop_last());
            }
            if lists.place[v] != NOW || labels.cost[v] != g {
                proof {
                    lemma_skip(s, labels, a, lists);
                }
                continue ;
            }
            proof {
                s.lemma_limits(v as int);
                labels.lemma_anchor(s, v as int);
            }
            let f: u64 = g + s.estimate(v);
            if f > flimit {
                if f < fmin {
                    fmin = f;
                }
                lists.place[v] = LATER;
                lists.later.push((v, g));
                proof {
                    lists.at@ = lists.at@.update(v as int, a.later@.len() as int);
                    lemma_defer(s, labels, a, lists);
                }
                continue ;
            }
            if s.goal(v) {
                let path = labels.trace(s, v);
                proof {
                    s.lemma_estimate_goal(v as int);
                    reveal(threshold);
                    assert forall|q: Seq<int>| connects(s, q) implies g <= #[trigger] walk_cost(s, q) by {
                    }
                    assert(connects(s, as_walk(path@)));
                }
                return Some((path, g));
            }
            lists.place[v] = IDLE;
            proof {
                lists.done@ = lists.done@.update(v as int, true);
                lemma_take(s, labels, a, lists);
                assert(lists.done@.update(v as int, false) =~= a.done@);
            }
            unfold(s, &mut labels, &mut lists, v);
            proof {
                lemma_sizes(s, labels, lists);
            }
        }
        if lists.later.len() == 0 {
            proof {
                assert forall|q: Seq<int>| !connects(s, q) by {
                    if connects(s, q) {
                        let r = lemma_short_walk(s, q);
                        lemma_in_fringe(s, labels, lists, r.last());
                        let w = lemma_first_open(s, cap, labels.seen@, lists.done@, labels.cost@, r, 0);
                        lemma_in_fringe(s, labels, lists, r[w]);
                    }
                }
            }
            return None;
        }
        proof {
            reveal(threshold);
            assert forall|q: Seq<int>| connects(s, q) && #[trigger] walk_cost(s, q) <= cap implies fmin
                <= walk_cost(s, q) by {
                lemma_in_fringe(s, labels, lists, q.last());
                let w = lemma_first_open(s, cap, labels.seen@, lists.done@, labels.cost@, q, 0);
                lemma_in_fringe(s, labels, lists, q[w]);
                assert(lists.place@[q[w]] == LATER);
                lemma_bias_telescopes(s, true, q, w + 1);
                s.lemma_estimate_goal(q.last());
            }
        }
        flimit = fmin;
        refill(s, &labels, &mut lists);
    }
}

/// With nothing in `later`, no cell is marked as put off.
proof fn lemma_no_later<S: SearchSpace>(s: &S, labels: Labels, lists: Lists)
    requires
        listed(s, labels, lists),
        lists.later@.len() == 0,
    ensures
        forall|fmin: nat| put_off(s, labels, lists, fmin),
{
    reveal(listed);
}

} // verus!
