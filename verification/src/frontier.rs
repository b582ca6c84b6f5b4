//! A binary min-heap of pending visits, ordered by priority and then by the
//! order in which the visits were queued.

use vstd::multiset::Multiset;
use vstd::prelude::*;

verus! {

/// A pending visit to `node`.
///
/// `key` is the priority the visit was queued with. `round` and `slot` record when
/// it was queued: the number of the expansion that queued it and its position among
/// the cells that expansion reached. Visits that share a key leave the frontier in
/// the order in which they were queued.
#[derive(Clone, Copy, Debug)]
pub struct Ticket {
    pub key: u64,
    pub round: usize,
    pub slot: usize,
    pub node: usize,
}

impl Ticket {
    /// Strict order of service: smaller key first, earlier queued first among equals.
    pub open spec fn before(self, other: Ticket) -> bool {
        self.key < other.key || (self.key == other.key && (self.round < other.round || (self.round
            == other.round && self.slot < other.slot)))
    }

    /// Decides whether `self` is served strictly before `other`.
    pub fn precedes(&self, other: &Ticket) -> (b: bool)
        ensures
            b == self.before(*other),
    {
        if self.key != other.key {
            self.key < other.key
        } else if self.round != other.round {
            self.round < other.round
        } else {
            self.slot < other.slot
        }
    }
}

/// Heap order on a sequence laid out as a complete binary tree.
pub open spec fn heap_ordered(s: Seq<Ticket>) -> bool {
    forall|c: int| 0 < c < s.len() ==> !(#[trigger] s[c]).before(s[(c - 1) / 2])
}

/// In a heap-ordered sequence nothing is served before the root.
proof fn lemma_root_least(s: Seq<Ticket>, i: int)
    requires
        heap_ordered(s),
        0 <= i < s.len(),
    ensures
        !s[i].before(s[0]),
    decreases i,
{
    if i > 0 {
        lemma_root_least(s, (i - 1) / 2);
        assert(!s[i].before(s[(i - 1) / 2]));
    }
}

/// Swaps two entries; the entries held stay the same.
fn exchange(items: &mut Vec<Ticket>, i: usize, j: usize)
    requires
        i < old(items).len(),
        j < old(items).len(),
    ensures
        final(items)@ == old(items)@.update(i as int, old(items)@[j as int]).update(
            j as int,
            old(items)@[i as int],
        ),
        final(items)@.len() == old(items)@.len(),
        final(items)@.to_multiset() == old(items)@.to_multiset(),
{
    let a = items[i];
    let b = items[j];
    let ghost s0 = items@;
    items[i] = b;
    let ghost s1 = items@;
    items[j] = a;
    proof {
        broadcast use vstd::multiset::group_multiset_axioms;

        vstd::seq_lib::to_multiset_update(s0, i as int, b);
        vstd::seq_lib::to_multiset_update(s1, j as int, a);
        vstd::seq_lib::to_multiset_contains(s0, a);
        vstd::seq_lib::to_multiset_contains(s0, b);
        assert(s0.contains(a));
        assert(s0.contains(b));
        assert(items@.to_multiset() =~= s0.to_multiset());
    }
}

/// The visits waiting to be served, smallest first.
pub struct Frontier {
    items: Vec<Ticket>,
}

impl View for Frontier {
    type V = Multiset<Ticket>;

    closed spec fn view(&self) -> Multiset<Ticket> {
        self.items@.to_multiset()
    }
}

impl Frontier {
    /// The internal layout respects heap order.
    pub closed spec fn wf(&self) -> bool {
        heap_ordered(self.items@)
    }

    /// An empty frontier.
    pub fn new() -> (f: Frontier)
        ensures
            f.wf(),
            f@ == Multiset::<Ticket>::empty(),
    {
        let f = Frontier { items: Vec::new() };
        proof {
            vstd::seq_lib::to_multiset_len(f.items@);
            vstd::multiset::lemma_multiset_empty_len(f.items@.to_multiset());
        }
        f
    }

    /// Number of waiting visits.
    pub fn len(&self) -> (n: usize)
        ensures
            n == self@.len(),
    {
        proof {
            vstd::seq_lib::to_multiset_len(self.items@);
        }
        self.items.len()
    }

    /// Queues a visit.
    pub fn push(&mut self, t: Ticket)
        requires
            old(self).wf(),
        ensures
            final(self).wf(),
            final(self)@ == old(self)@.insert(t),
    {
        proof {
            vstd::seq_lib::to_multiset_build(self.items@, t);
        }
        self.items.push(t);
        let mut i: usize = self.items.len() - 1;
        while i > 0
            invariant
                i < self.items.len(),
                self.items@.to_multiset() == old(self).items@.to_multiset().insert(t),
                forall|c: int|
                    0 < c < self.items.len() && c != i ==> !(#[trigger] self.items@[c]).before(
                        self.items@[(c - 1) / 2],
                    ),
                forall|c: int|
                    0 < c < self.items.len() && i > 0 && (c - 1) / 2 == i ==> !(
                    #[trigger] self.items@[c]).before(self.items@[(i - 1) / 2]),
            ensures
                heap_ordered(self.items@),
            decreases i,
        {
            let p: usize = (i - 1) / 2;
            if self.items[i].precedes(&self.items[p]) {
                exchange(&mut self.items, i, p);
                i = p;
            } else {
                break ;
            }
        }
    }

    /// Takes out the visit that is served first, if any is waiting.
    pub fn pop(&mut self) -> (r: Option<Ticket>)
        requires
            old(self).wf(),
        ensures
            final(self).wf(),
            match r {
                Some(t) => {
                    &&& old(self)@.contains(t)
                    &&& final(self)@ == old(self)@.remove(t)
                    &&& forall|u: Ticket| old(self)@.contains(u) ==> !u.before(t)
                },
                None => old(self)@.len() == 0 && final(self)@ == old(self)@,
            },
    {
        let n: usize = self.items.len();
        proof {
            vstd::seq_lib::to_multiset_len(self.items@);
        }
        if n == 0 {
            return None;
        }
        let ghost s0 = self.items@;
        let top = self.items[0];
        proof {
            assert forall|u: Ticket| s0.to_multiset().contains(u) implies !u.before(top) by {
                vstd::seq_lib::to_multiset_contains(s0, u);
                let k = choose|k: int| 0 <= k < s0.len() && s0[k] == u;
                lemma_root_least(s0, k);
            }
            vstd::seq_lib::to_multiset_contains(s0, top);
            assert(s0.contains(top));
        }
        exchange(&mut self.items, 0, n - 1);
        let ghost s1 = self.items@;
        self.items.pop();
        proof {
            assert(self.items@ =~= s1.remove(n - 1));
            vstd::seq_lib::to_multiset_remove(s1, n - 1);
        }
        let m: usize = n - 1;
        let mut i: usize = 0;
        loop
            invariant
                m == self.items.len(),
                i < m || m == 0,
                self.items@.to_multiset() == s0.to_multiset().remove(top),
                forall|c: int|
                    0 < c < m && (c - 1) / 2 != i ==> !(#[trigger] self.items@[c]).before(
                        self.items@[(c - 1) / 2],
                    ),
                forall|c: int|
                    0 < c < m && i > 0 && (c - 1) / 2 == i ==> !(#[trigger] self.items@[c]).before(
                        self.items@[(i - 1) / 2],
                    ),
            ensures
                heap_ordered(self.items@),
            decreases m - i,
        {
            if m == 0 || i > (m - 1) / 2 {
                break ;
            }
            let l: usize = 2 * i + 1;
            if l >= m {
                break ;
            }
            let r: usize = l + 1;
            let mut least: usize = l;
            if r < m && self.items[r].precedes(&self.items[l]) {
                least = r;
            }
            if self.items[least].precedes(&self.items[i]) {
                exchange(&mut self.items, i, least);
                i = least;
            } else {
                break ;
            }
        }
        Some(top)
    }
}

} // verus!
