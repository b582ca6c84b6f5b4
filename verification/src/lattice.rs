//! A cost array as a search space: cells numbered in storage order, moves by the
//! rule in force, and an estimate scaled by the least cost in the array.

use crate::algorithm::{search, Algorithm};
use crate::field::{place_of, Axis, Position3D, Terrain, IMPASSABLE};
use crate::graph::{as_walk, connects, is_walk, walk_cost, SearchSpace, MAX_TOLL};
use crate::route::{fits, is_route, is_verdict, links, route_cost, Moves, Step};
use vstd::prelude::*;

verus! {

/// Distance between two coordinates.
pub open spec fn span(a: int, b: int) -> int {
    if a >= b {
        a - b
    } else {
        b - a
    }
}

/// A lower bound on the number of moves from `p` to wherever the estimate aims:
/// under free movement the larger of the two in-layer distances to `anchor`; under
/// forced movement the number of layers still to cross to reach the layer of
/// `anchor`.
spec fn gap(moves: Moves, anchor: Position3D, p: Position3D) -> int {
    match moves {
        Moves::Free => if span(p.x as int, anchor.x as int) >= span(p.y as int, anchor.y as int) {
            span(p.x as int, anchor.x as int)
        } else {
            span(p.y as int, anchor.y as int)
        },
        Moves::Forced { axis, reach } => if anchor.along(axis) > p.along(axis) {
            anchor.along(axis) - p.along(axis)
        } else {
            0
        },
    }
}

/// One move changes the gap by no more than one.
proof fn lemma_gap_step(moves: Moves, anchor: Position3D, a: Position3D, b: Position3D)
    requires
        moves.allows(a, b),
    ensures
        gap(moves, anchor, a) <= gap(moves, anchor, b) + 1,
        gap(moves, anchor, a) >= 0,
        gap(moves, anchor, b) >= 0,
{
}

/// The coordinates reachable from `c` in one move under `step`, within an extent:
/// from the first of the pair up to, not including, the second.
fn window(c: usize, step: Step, extent: usize) -> (r: (usize, usize))
    requires
        c < extent,
    ensures
        r.0 <= r.1 <= extent,
        forall|d: int| r.0 <= d < r.1 <==> 0 <= d < extent && fits(step, c as int, d),
{
    match step {
        Step::Within(reach) => {
            let lo = if reach >= c {
                0
            } else {
                c - reach
            };
            let hi = if reach >= extent - 1 - c {
                extent
            } else {
                c + reach + 1
            };
            (lo, hi)
        },
        Step::Advance => if c + 1 < extent {
            (c + 1, c + 2)
        } else {
            (extent, extent)
        },
    }
}

/// The position whose cost stands at `v` in an array of the given extents.
pub fn spot(width: usize, height: usize, v: usize) -> (p: Position3D)
    requires
        0 < width,
        0 < height,
    ensures
        p.x == v % width,
        p.y == (v / width) % height,
        p.layer == (v / width) / height,
{
    let row = v / width;
    Position3D { x: v % width, y: row % height, layer: row / height }
}

/// A search over a cost array: its costs and extents, the rule for moves, where
/// routes may begin and end, and what the estimate is built from.
struct GridSearch<'a> {
    cells: &'a Vec<u8>,
    width: usize,
    height: usize,
    depth: usize,
    moves: Moves,
    starts: Vec<usize>,
    goals: Vec<bool>,
    floor: u8,
    anchor: Position3D,
}

impl<'a> GridSearch<'a> {
    /// The array that is searched.
    spec fn terrain(&self) -> Terrain {
        Terrain {
            width: self.width as int,
            height: self.height as int,
            depth: self.depth as int,
            cells: self.cells@,
        }
    }

    /// The array is well formed, starts and goals lie in it, no cost is below the
    /// floor, and no goal is at a distance from where the estimate aims.
    spec fn sound(&self) -> bool {
        &&& self.terrain().wf()
        &&& self.terrain().holds(self.anchor)
        &&& self.goals@.len() == self.cells@.len()
        &&& forall|i: int| 0 <= i < self.starts@.len() ==> (#[trigger] self.starts@[i]) < self.cells@.len()
        &&& forall|v: int| 0 <= v < self.cells@.len() ==> self.floor <= #[trigger] self.cells@[v]
        &&& self.floor > 0 ==> forall|v: int|
            0 <= v < self.goals@.len() && #[trigger] self.goals@[v] ==> gap(
                self.moves,
                self.anchor,
                self.terrain().position(v),
            ) == 0
    }
}

/// The cells listed in `list`, as the cell numbered `v` sees them.
spec fn covered(list: Seq<usize>, v: int) -> bool {
    exists|i: int| 0 <= i < list.len() && #[trigger] list[i] == v
}

/// The box of positions that the three windows span.
pub open spec fn in_box(
    xs: (usize, usize),
    ys: (usize, usize),
    ls: (usize, usize),
    q: Position3D,
) -> bool {
    xs.0 <= q.x < xs.1 && ys.0 <= q.y < ys.1 && ls.0 <= q.layer < ls.1
}

/// `q` comes before the position `(x, y, l)` in the order in which a box is walked.
pub open spec fn earlier(q: Position3D, l: int, y: int, x: int) -> bool {
    q.layer < l || (q.layer == l && (q.y < y || (q.y == y && q.x < x)))
}

impl<'a> SearchSpace for GridSearch<'a> {
    closed spec fn wf(&self) -> bool {
        self.sound()
    }

    closed spec fn size(&self) -> nat {
        self.cells@.len()
    }

    closed spec fn toll(&self, v: int) -> nat {
        self.cells@[v] as nat
    }

    closed spec fn passable(&self, v: int) -> bool {
        self.cells@[v] < IMPASSABLE
    }

    closed spec fn adjacent(&self, u: int, v: int) -> bool {
        self.moves.allows(self.terrain().position(u), self.terrain().position(v))
    }

    closed spec fn is_start(&self, v: int) -> bool {
        covered(self.starts@, v)
    }

    closed spec fn is_goal(&self, v: int) -> bool {
        0 <= v < self.goals@.len() && self.goals@[v]
    }

    closed spec fn remaining(&self, v: int) -> nat {
        (self.floor * gap(self.moves, self.anchor, self.terrain().position(v))) as nat
    }

    proof fn lemma_limits(&self, v: int) {
        let t = self.terrain();
        t.lemma_position(v);
        let p = t.position(v);
        let g = gap(self.moves, self.anchor, p);
        let n = t.width * t.height * t.depth;
        assert(t.width <= n && t.height <= n && t.depth <= n) by (nonlinear_arith)
            requires
                0 < t.width,
                0 < t.height,
                0 < t.depth,
                n == t.width * t.height * t.depth,
        ;
        assert(0 <= g <= n);
        assert(0 <= self.floor * g <= MAX_TOLL * n) by (nonlinear_arith)
            requires
                0 <= g <= n,
                0 <= self.floor <= MAX_TOLL,
        ;
    }

    proof fn lemma_estimate_step(&self, u: int, v: int) {
        let t = self.terrain();
        let a = t.position(u);
        let b = t.position(v);
        lemma_gap_step(self.moves, self.anchor, a, b);
        let ga = gap(self.moves, self.anchor, a);
        let gb = gap(self.moves, self.anchor, b);
        assert(self.sound());
        assert(self.floor <= self.cells@[v]);
        assert(self.floor * ga <= self.floor * gb + self.floor && 0 <= self.floor * gb) by (nonlinear_arith)
            requires
                0 <= ga <= gb + 1,
                0 <= gb,
                0 <= self.floor,
        ;
    }

    proof fn lemma_estimate_goal(&self, v: int) {
        assert(self.sound());
        let g = gap(self.moves, self.anchor, self.terrain().position(v));
        if self.floor > 0 {
            assert(self.goals@[v]);
            assert(g == 0);
        }
        assert(self.floor * g == 0) by (nonlinear_arith)
            requires
                self.floor == 0 || g == 0,
        ;
    }

    fn node_count(&self) -> (n: usize) {
        self.cells.len()
    }

    fn cost(&self, v: usize) -> (c: Option<u8>) {
        let c = self.cells[v];
        if c < IMPASSABLE {
            Some(c)
        } else {
            None
        }
    }

    fn starts(&self) -> (list: Vec<usize>) {
        let mut list: Vec<usize> = Vec::new();
        let mut i: usize = 0;
        while i < self.starts.len()
            invariant
                i <= self.starts@.len(),
                list@ == self.starts@.take(i as int),
            decreases self.starts@.len() - i,
        {
            list.push(self.starts[i]);
            proof {
                assert(self.starts@.take(i + 1) =~= self.starts@.take(i as int).push(self.starts@[i as int]));
            }
            i += 1;
        }
        proof {
            assert(self.starts@.take(i as int) =~= self.starts@);
            assert forall|v: int| 0 <= v < self.size() && self.is_start(v) implies exists|k: int|
                0 <= k < list@.len() && #[trigger] list@[k] == v by {
                let k = choose|k: int| 0 <= k < self.starts@.len() && #[trigger] self.starts@[k] == v;
                assert(list@[k] == v);
            }
        }
        list
    }

    fn goal(&self, v: usize) -> (b: bool) {
        self.goals[v]
    }

    fn successors(&self, u: usize) -> (list: Vec<usize>) {
        let ghost t = self.terrain();
        proof {
            t.lemma_position(u as int);
        }
        let n = self.cells.len();
        let p = spot(self.width, self.height, u);
        let xs = window(p.x, self.moves.step_of(Axis::X), self.width);
        let ys = window(p.y, self.moves.step_of(Axis::Y), self.height);
        let ls = window(p.layer, self.moves.step_of(Axis::Layer), self.depth);
        let mut list: Vec<usize> = Vec::new();
        let mut l: usize = ls.0;
        while l < ls.1
            invariant
                self.sound(),
                t == self.terrain(),
                n == self.cells@.len(),
                xs.0 <= xs.1 <= self.width,
                ys.0 <= ys.1 <= self.height,
                ls.0 <= l <= ls.1 <= self.depth,
                forall|i: int|
                    0 <= i < list@.len() ==> (#[trigger] list@[i]) < n && in_box(
                        xs,
                        ys,
                        ls,
                        t.position(list@[i] as int),
                    ) && t.position(list@[i] as int) != p,
                forall|q: Position3D|
                    in_box(xs, ys, ls, q) && q != p && earlier(q, l as int, ys.0 as int, xs.0 as int)
                        ==> covered(list@, #[trigger] t.index(q)),
            decreases ls.1 - l,
        {
            let mut y: usize = ys.0;
            while y < ys.1
                invariant
                    self.sound(),
                    t == self.terrain(),
                    n == self.cells@.len(),
                    xs.0 <= xs.1 <= self.width,
                    ys.0 <= y <= ys.1 <= self.height,
                    ls.0 <= l < ls.1 <= self.depth,
                    forall|i: int|
                        0 <= i < list@.len() ==> (#[trigger] list@[i]) < n && in_box(
                            xs,
                            ys,
                            ls,
                            t.position(list@[i] as int),
                        ) && t.position(list@[i] as int) != p,
                    forall|q: Position3D|
                        in_box(xs, ys, ls, q) && q != p && earlier(q, l as int, y as int, xs.0 as int)
                            ==> covered(list@, #[trigger] t.index(q)),
                decreases ys.1 - y,
            {
                let mut x: usize = xs.0;
                while x < xs.1
                    invariant
                        self.sound(),
                        t == self.terrain(),
                        n == self.cells@.len(),
                        xs.0 <= x <= xs.1 <= self.width,
                        ys.0 <= y < ys.1 <= self.height,
                        ls.0 <= l < ls.1 <= self.depth,
                        forall|i: int|
                            0 <= i < list@.len() ==> (#[trigger] list@[i]) < n && in_box(
                                xs,
                                ys,
                                ls,
                                t.position(list@[i] as int),
                            ) && t.position(list@[i] as int) != p,
                        forall|q: Position3D|
                            in_box(xs, ys, ls, q) && q != p && earlier(q, l as int, y as int, x as int)
                                ==> covered(list@, #[trigger] t.index(q)),
                    decreases xs.1 - x,
                {
                    let here = Position3D { x: x, y: y, layer: l };
                    if !(x == p.x && y == p.y && l == p.layer) {
                        proof {
                            t.lemma_index(here);
                        }
                        let v = place_of(self.width, self.height, self.depth, here);
                        let ghost before = list@;
                        list.push(v);
                        proof {
                            assert forall|q: Position3D|
                                in_box(xs, ys, ls, q) && q != p && earlier(
                                    q,
                                    l as int,
                                    y as int,
                                    x + 1,
                                ) implies covered(list@, #[trigger] t.index(q)) by {
                                if earlier(q, l as int, y as int, x as int) {
                                    assert(covered(before, t.index(q)));
                                    let i = choose|i: int| 0 <= i < before.len() && #[trigger] before[i] == t.index(q);
                                    assert(list@[i] == t.index(q));
                                } else {
                                    assert(q == here);
                                    assert(list@[before.len() as int] == t.index(q));
                                }
                            }
                        }
                    }
                    x += 1;
                }
                y += 1;
            }
            l += 1;
        }
        proof {
            assert forall|i: int| 0 <= i < list@.len() implies (#[trigger] list@[i]) < self.size()
                && self.adjacent(u as int, list@[i] as int) by {
                let q = t.position(list@[i] as int);
                assert(in_box(xs, ys, ls, q) && q != p);
            }
            assert forall|v: int| 0 <= v < self.size() && self.adjacent(u as int, v) implies exists|i: int|
                0 <= i < list@.len() && #[trigger] list@[i] == v by {
                t.lemma_position(v);
                let q = t.position(v);
                assert(in_box(xs, ys, ls, q));
                assert(earlier(q, l as int, ys.0 as int, xs.0 as int));
                assert(covered(list@, t.index(q)));
            }
        }
        list
    }

    fn estimate(&self, v: usize) -> (h: u64) {
        proof {
            self.lemma_limits(v as int);
            self.terrain().lemma_position(v as int);
        }
        let p = spot(self.width, self.height, v);
        let g: usize = match self.moves {
            Moves::Free => {
                let dx = if p.x >= self.anchor.x {
                    p.x - self.anchor.x
                } else {
                    self.anchor.x - p.x
                };
                let dy = if p.y >= self.anchor.y {
                    p.y - self.anchor.y
                } else {
                    self.anchor.y - p.y
                };
                if dx >= dy {
                    dx
                } else {
                    dy
                }
            },
            Moves::Forced { axis, reach } => {
                let a = self.anchor.coordinate(axis);
                let c = p.coordinate(axis);
                if a > c {
                    a - c
                } else {
                    0
                }
            },
        };
        assert(g == gap(self.moves, self.anchor, self.terrain().position(v as int)));
        (self.floor as u64) * (g as u64)
    }
}

/// Some end among the first `j` stands at `v`.
spec fn marked(t: Terrain, ends: Seq<Position3D>, j: int, v: int) -> bool {
    exists|k: int| 0 <= k < j && t.index(#[trigger] ends[k]) == v
}

/// The positions of the cells numbered in `r`.
spec fn spots(t: Terrain, r: Seq<int>) -> Seq<Position3D> {
    r.map_values(|v: int| t.position(v))
}

/// The numbers of the cells at the positions in `q`.
spec fn places(t: Terrain, q: Seq<Position3D>) -> Seq<int> {
    q.map_values(|p: Position3D| t.index(p))
}

impl<'a> GridSearch<'a> {
    /// Numbered cells cost what the cells at their positions cost.
    proof fn lemma_spots_cost(&self, r: Seq<int>)
        requires
            self.sound(),
            forall|i: int| 0 <= i < r.len() ==> 0 <= #[trigger] r[i] < self.cells@.len(),
        ensures
            route_cost(self.terrain(), spots(self.terrain(), r)) == walk_cost(self, r),
        decreases r.len(),
    {
        let t = self.terrain();
        if r.len() > 0 {
            self.lemma_spots_cost(r.drop_last());
            assert(spots(t, r).drop_last() =~= spots(t, r.drop_last()));
            t.lemma_position(r.last());
        }
    }

    /// Cells at positions cost what their numbers cost.
    proof fn lemma_places_cost(&self, q: Seq<Position3D>)
        requires
            self.sound(),
            forall|i: int| 0 <= i < q.len() ==> self.terrain().holds(#[trigger] q[i]),
        ensures
            walk_cost(self, places(self.terrain(), q)) == route_cost(self.terrain(), q),
        decreases q.len(),
    {
        let t = self.terrain();
        if q.len() > 0 {
            self.lemma_places_cost(q.drop_last());
            assert(places(t, q).drop_last() =~= places(t, q.drop_last()));
            t.lemma_index(q.last());
        }
    }

    /// A route over the numbered cells is a route over the array, at the same cost.
    proof fn lemma_walk_is_route(&self, r: Seq<int>)
        requires
            self.sound(),
            is_walk(self, r),
        ensures
            is_route(self.terrain(), self.moves, spots(self.terrain(), r)),
            route_cost(self.terrain(), spots(self.terrain(), r)) == walk_cost(self, r),
    {
        let t = self.terrain();
        let p = spots(t, r);
        self.lemma_spots_cost(r);
        assert forall|i: int| 0 <= i < p.len() implies t.passable(#[trigger] p[i]) by {
            t.lemma_position(r[i]);
            assert(self.passable(r[i]));
        }
        assert forall|i: int| 0 < i < p.len() implies self.moves.allows(p[i - 1], #[trigger] p[i]) by {
            assert(self.adjacent(r[i - 1], r[i]));
        }
    }

    /// A route over the array is a route over the numbered cells, at the same cost.
    proof fn lemma_route_is_walk(&self, q: Seq<Position3D>)
        requires
            self.sound(),
            is_route(self.terrain(), self.moves, q),
        ensures
            is_walk(self, places(self.terrain(), q)),
            walk_cost(self, places(self.terrain(), q)) == route_cost(self.terrain(), q),
    {
        let t = self.terrain();
        let r = places(t, q);
        assert forall|i: int| 0 <= i < q.len() implies t.holds(#[trigger] q[i]) by {
            assert(t.passable(q[i]));
        }
        self.lemma_places_cost(q);
        assert forall|i: int| 0 <= i < r.len() implies 0 <= #[trigger] r[i] < self.size()
            && self.passable(r[i]) by {
            assert(t.passable(q[i]));
            t.lemma_index(q[i]);
        }
        assert forall|i: int| 0 < i < r.len() implies self.adjacent(r[i - 1], #[trigger] r[i]) by {
            assert(t.passable(q[i]));
            assert(t.passable(q[i - 1]));
            t.lemma_index(q[i]);
            t.lemma_index(q[i - 1]);
            assert(self.moves.allows(q[i - 1], q[i]));
        }
    }
}

/// The least cost in `cells`: one of the costs, and no cost is below it.
fn least(cells: &Vec<u8>) -> (floor: u8)
    requires
        cells@.len() > 0,
    ensures
        forall|v: int| 0 <= v < cells@.len() ==> floor <= #[trigger] cells@[v],
        exists|v: int| 0 <= v < cells@.len() && #[trigger] cells@[v] == floor,
{
    let mut floor: u8 = cells[0];
    let ghost mut at: int = 0;
    let mut i: usize = 1;
    while i < cells.len()
        invariant
            1 <= i <= cells@.len(),
            0 <= at < i,
            cells@[at] == floor,
            forall|v: int| 0 <= v < i ==> floor <= #[trigger] cells@[v],
        decreases cells@.len() - i,
    {
        if cells[i] < floor {
            floor = cells[i];
            proof {
                at = i as int;
            }
        }
        i += 1;
    }
    floor
}

/// The least coordinate along `axis` among `ends`, or zero where there are none.
fn nearest(ends: &Vec<Position3D>, axis: Axis) -> (c: usize)
    ensures
        forall|k: int| 0 <= k < ends@.len() ==> c <= (#[trigger] ends@[k]).along(axis),
        ends@.len() == 0 ==> c == 0,
        ends@.len() > 0 ==> exists|k: int| 0 <= k < ends@.len() && c == (#[trigger] ends@[k]).along(axis),
{
    if ends.len() == 0 {
        return 0;
    }
    let mut c: usize = ends[0].coordinate(axis);
    let ghost mut at: int = 0;
    let mut k: usize = 1;
    while k < ends.len()
        invariant
            1 <= k <= ends@.len(),
            0 <= at < k,
            c == ends@[at].along(axis),
            forall|j: int| 0 <= j < k ==> c <= (#[trigger] ends@[j]).along(axis),
        decreases ends@.len() - k,
    {
        let e = ends[k].coordinate(axis);
        if e < c {
            c = e;
            proof {
                at = k as int;
            }
        }
        k += 1;
    }
    c
}

/// The numbers of the cells at `starts`, in order.
fn number(width: usize, height: usize, depth: usize, n: usize, starts: &Vec<Position3D>, Ghost(t): Ghost<Terrain>) -> (nodes: Vec<usize>)
    requires
        t.wf(),
        t.cells.len() == n,
        t.width == width,
        t.height == height,
        t.depth == depth,
        forall|i: int| 0 <= i < starts@.len() ==> t.holds(#[trigger] starts@[i]),
    ensures
        nodes@.len() == starts@.len(),
        forall|i: int| 0 <= i < nodes@.len() ==> (#[trigger] nodes@[i]) == t.index(starts@[i]) && nodes@[i] < t.cells.len(),
{
    let mut nodes: Vec<usize> = Vec::new();
    let mut i: usize = 0;
    while i < starts.len()
        invariant
            t.wf(),
            t.cells.len() == n,
            t.width == width,
            t.height == height,
            t.depth == depth,
            forall|i: int| 0 <= i < starts@.len() ==> t.holds(#[trigger] starts@[i]),
            i <= starts@.len(),
            nodes@.len() == i,
            forall|k: int| 0 <= k < i ==> (#[trigger] nodes@[k]) == t.index(starts@[k]) && nodes@[k] < t.cells.len(),
        decreases starts@.len() - i,
    {
        assert(t.holds(starts@[i as int]));
        let v = place_of(width, height, depth, starts[i]);
        nodes.push(v);
        i += 1;
    }
    nodes
}

/// One flag per cell: whether one of `ends` stands there.
fn flag(width: usize, height: usize, depth: usize, n: usize, ends: &Vec<Position3D>, Ghost(t): Ghost<Terrain>) -> (flags: Vec<bool>)
    requires
        t.wf(),
        t.width == width,
        t.height == height,
        t.depth == depth,
        t.cells.len() == n,
        forall|i: int| 0 <= i < ends@.len() ==> t.holds(#[trigger] ends@[i]),
    ensures
        flags@.len() == n,
        forall|v: int| 0 <= v < n ==> #[trigger] flags@[v] == marked(t, ends@, ends@.len() as int, v),
{
    let mut flags: Vec<bool> = vec![false; n];
    let mut j: usize = 0;
    while j < ends.len()
        invariant
            t.wf(),
            t.width == width,
            t.height == height,
            t.depth == depth,
            t.cells.len() == n,
            forall|i: int| 0 <= i < ends@.len() ==> t.holds(#[trigger] ends@[i]),
            j <= ends@.len(),
            flags@.len() == n,
            forall|v: int| 0 <= v < n ==> #[trigger] flags@[v] == marked(t, ends@, j as int, v),
        decreases ends@.len() - j,
    {
        assert(t.holds(ends@[j as int]));
        let v = place_of(width, height, depth, ends[j]);
        let ghost before = flags@;
        flags[v] = true;
        proof {
            assert forall|x: int| 0 <= x < n implies #[trigger] flags@[x] == marked(t, ends@, j + 1, x) by {
                if marked(t, ends@, j as int, x) {
                    let k = choose|k: int| 0 <= k < j && t.index(#[trigger] ends@[k]) == x;
                    assert(0 <= k < j + 1 && t.index(ends@[k]) == x);
                }
                if marked(t, ends@, j + 1, x) && x != v {
                    let k = choose|k: int| 0 <= k < j + 1 && t.index(#[trigger] ends@[k]) == x;
                    assert(k != j);
                    assert(0 <= k < j && t.index(ends@[k]) == x);
                }
                if x == v {
                    assert(t.index(ends@[j as int]) == x);
                }
            }
        }
        j += 1;
    }
    flags
}

/// The position along `axis` at coordinate `c`, at the origin otherwise.
fn on_axis(axis: Axis, c: usize) -> (p: Position3D)
    ensures
        p.along(axis) == c,
        forall|other: Axis| other != axis ==> p.along(other) == 0,
{
    match axis {
        Axis::X => Position3D { x: c, y: 0, layer: 0 },
        Axis::Y => Position3D { x: 0, y: c, layer: 0 },
        Axis::Layer => Position3D { x: 0, y: 0, layer: c },
    }
}

/// Searches the array of the given extents for a best route from one of `starts`
/// to one of `ends` under `moves`, with `algorithm`.
pub fn solve(
    cells: &Vec<u8>,
    width: usize,
    height: usize,
    depth: usize,
    moves: Moves,
    starts: &Vec<Position3D>,
    ends: &Vec<Position3D>,
    algorithm: Algorithm,
) -> (out: Option<(Vec<Position3D>, u64)>)
    requires
        (Terrain { width: width as int, height: height as int, depth: depth as int, cells: cells@ }).wf(),
        forall|i: int|
            0 <= i < starts@.len() ==> (Terrain {
                width: width as int,
                height: height as int,
                depth: depth as int,
                cells: cells@,
            }).holds(#[trigger] starts@[i]),
        forall|i: int|
            0 <= i < ends@.len() ==> (Terrain {
                width: width as int,
                height: height as int,
                depth: depth as int,
                cells: cells@,
            }).holds(#[trigger] ends@[i]),
    ensures
        is_verdict(
            Terrain { width: width as int, height: height as int, depth: depth as int, cells: cells@ },
            moves,
            starts@,
            ends@,
            out,
        ),
{
    let ghost t = Terrain {
        width: width as int,
        height: height as int,
        depth: depth as int,
        cells: cells@,
    };
    let n = cells.len();
    let nodes = number(width, height, depth, n, starts, Ghost(t));
    let flags = flag(width, height, depth, n, ends, Ghost(t));
    assert(t.width * t.height * t.depth >= 1) by (nonlinear_arith)
        requires
            t.width >= 1,
            t.height >= 1,
            t.depth >= 1,
    ;
    let low = least(cells);
    let (floor, anchor) = match moves {
        Moves::Free => if ends.len() == 1 {
            (low, ends[0])
        } else {
            (0u8, Position3D { x: 0, y: 0, layer: 0 })
        },
        Moves::Forced { axis, reach } => (low, on_axis(axis, nearest(ends, axis))),
    };
    let g = GridSearch {
        cells: cells,
        width: width,
        height: height,
        depth: depth,
        moves: moves,
        starts: nodes,
        goals: flags,
        floor: floor,
        anchor: anchor,
    };
    proof {
        assert(g.terrain() == t);
        assert(t.holds(anchor)) by {
            match moves {
                Moves::Free => {},
                Moves::Forced { axis, reach } => {
                    if ends@.len() > 0 {
                        let k = choose|k: int| 0 <= k < ends@.len() && anchor.along(axis) == (#[trigger] ends@[k]).along(axis);
                        assert(t.holds(ends@[k]));
                    }
                    assert(anchor.along(Axis::X) < t.width);
                    assert(anchor.along(Axis::Y) < t.height);
                    assert(anchor.along(Axis::Layer) < t.depth);
                },
            }
        }
        if floor > 0 {
            assert forall|v: int| 0 <= v < g.goals@.len() && #[trigger] g.goals@[v] implies gap(
                moves,
                anchor,
                t.position(v),
            ) == 0 by {
                assert(marked(t, ends@, ends@.len() as int, v));
                let k = choose|k: int| 0 <= k < ends@.len() && t.index(#[trigger] ends@[k]) == v;
                assert(t.holds(ends@[k]));
                t.lemma_index(ends@[k]);
            }
        }
        assert(g.sound());
    }
    let found = search(&g, algorithm);
    match found {
        None => {
            proof {
                assert forall|q: Seq<Position3D>| !links(t, moves, starts@, ends@, q) by {
                    if links(t, moves, starts@, ends@, q) {
                        lemma_links_connect(&g, t, starts@, ends@, q);
                        assert(connects(&g, places(t, q)));
                    }
                }
            }
            None
        },
        Some((path, total)) => {
            let mut route: Vec<Position3D> = Vec::new();
            let mut i: usize = 0;
            while i < path.len()
                invariant
                    0 < width,
                    0 < height,
                    t.width == width,
                    t.height == height,
                    i <= path@.len(),
                    route@.len() == i,
                    forall|k: int| 0 <= k < i ==> #[trigger] route@[k] == t.position(path@[k] as int),
                decreases path@.len() - i,
            {
                route.push(spot(width, height, path[i]));
                i += 1;
            }
            proof {
                let r = as_walk(path@);
                assert(route@ =~= spots(t, r));
                g.lemma_walk_is_route(r);
                assert(starts@.contains(route@[0])) by {
                    let k = choose|k: int| 0 <= k < g.starts@.len() && #[trigger] g.starts@[k] == r[0];
                    assert(t.holds(starts@[k]));
                    t.lemma_index(starts@[k]);
                    assert(starts@[k] == route@[0]);
                }
                assert(ends@.contains(route@.last())) by {
                    let v = r.last();
                    assert(g.goals@[v]);
                    assert(marked(t, ends@, ends@.len() as int, v));
                    let k = choose|k: int| 0 <= k < ends@.len() && t.index(#[trigger] ends@[k]) == v;
                    assert(t.holds(ends@[k]));
                    t.lemma_index(ends@[k]);
                    assert(ends@[k] == route@.last());
                }
                assert forall|q: Seq<Position3D>| links(t, moves, starts@, ends@, q) implies total
                    <= #[trigger] route_cost(t, q) by {
                    lemma_links_connect(&g, t, starts@, ends@, q);
                    assert(connects(&g, places(t, q)));
                }
            }
            Some((route, total))
        },
    }
}

/// A route over the array that links the starts to the ends connects a start to a
/// goal of the search built from them, at the same cost.
proof fn lemma_links_connect(
    g: &GridSearch,
    t: Terrain,
    starts: Seq<Position3D>,
    ends: Seq<Position3D>,
    q: Seq<Position3D>,
)
    requires
        g.sound(),
        g.terrain() == t,
        g.starts@.len() == starts.len(),
        forall|i: int| 0 <= i < starts.len() ==> (#[trigger] g.starts@[i]) == t.index(starts[i]),
        forall|v: int|
            0 <= v < g.goals@.len() ==> #[trigger] g.goals@[v] == marked(t, ends, ends.len() as int, v),
        links(t, g.moves, starts, ends, q),
    ensures
        connects(g, places(t, q)),
        walk_cost(g, places(t, q)) == route_cost(t, q),
{
    let r = places(t, q);
    g.lemma_route_is_walk(q);
    assert(t.passable(q[0]));
    assert(t.passable(q.last()));
    t.lemma_index(q[0]);
    t.lemma_index(q.last());
    let i = choose|i: int| 0 <= i < starts.len() && starts[i] == q[0];
    assert(g.starts@[i] == r[0]);
    assert(covered(g.starts@, r[0]));
    let k = choose|k: int| 0 <= k < ends.len() && ends[k] == q.last();
    assert(t.index(ends[k]) == r.last());
    assert(marked(t, ends, ends.len() as int, r.last()));
}

/// Every position of the box that three ranges of coordinates span, layer by
/// layer, row by row.
pub fn box_positions(xs: (usize, usize), ys: (usize, usize), ls: (usize, usize)) -> (list: Vec<
    Position3D,
>)
    ensures
        forall|q: Position3D| list@.contains(q) <==> in_box(xs, ys, ls, q),
        forall|i: int, j: int|
            0 <= i < j < list@.len() ==> earlier(
                #[trigger] list@[i],
                (#[trigger] list@[j]).layer as int,
                list@[j].y as int,
                list@[j].x as int,
            ),
{
    let mut list: Vec<Position3D> = Vec::new();
    let mut l: usize = ls.0;
    while l < ls.1
        invariant
            ls.0 <= l,
            forall|i: int| 0 <= i < list@.len() ==> in_box(xs, ys, ls, #[trigger] list@[i]),
            forall|i: int| 0 <= i < list@.len() ==> (#[trigger] list@[i]).layer < l,
            forall|i: int, j: int|
                0 <= i < j < list@.len() ==> earlier(
                    #[trigger] list@[i],
                    (#[trigger] list@[j]).layer as int,
                    list@[j].y as int,
                    list@[j].x as int,
                ),
            forall|q: Position3D|
                in_box(xs, ys, ls, q) && earlier(q, l as int, ys.0 as int, xs.0 as int)
                    ==> #[trigger] list@.contains(q),
        decreases ls.1 - l,
    {
        let mut y: usize = ys.0;
        while y < ys.1
            invariant
                ls.0 <= l < ls.1,
                ys.0 <= y,
                forall|i: int| 0 <= i < list@.len() ==> in_box(xs, ys, ls, #[trigger] list@[i]),
                forall|i: int|
                    0 <= i < list@.len() ==> (#[trigger] list@[i]).layer < l || (list@[i].layer == l
                        && list@[i].y < y),
                forall|i: int, j: int|
                    0 <= i < j < list@.len() ==> earlier(
                        #[trigger] list@[i],
                        (#[trigger] list@[j]).layer as int,
                        list@[j].y as int,
                        list@[j].x as int,
                    ),
                forall|q: Position3D|
                    in_box(xs, ys, ls, q) && earlier(q, l as int, y as int, xs.0 as int)
                        ==> #[trigger] list@.contains(q),
            decreases ys.1 - y,
        {
            let mut x: usize = xs.0;
            while x < xs.1
                invariant
                    ls.0 <= l < ls.1,
                    ys.0 <= y < ys.1,
                    xs.0 <= x,
                    forall|i: int| 0 <= i < list@.len() ==> in_box(xs, ys, ls, #[trigger] list@[i]),
                    forall|i: int|
                        0 <= i < list@.len() ==> earlier(#[trigger] list@[i], l as int, y as int, x as int),
                    forall|i: int, j: int|
                        0 <= i < j < list@.len() ==> earlier(
                            #[trigger] list@[i],
                            (#[trigger] list@[j]).layer as int,
                            list@[j].y as int,
                            list@[j].x as int,
                        ),
                    forall|q: Position3D|
                        in_box(xs, ys, ls, q) && earlier(q, l as int, y as int, x as int)
                            ==> #[trigger] list@.contains(q),
                decreases xs.1 - x,
            {
                let here = Position3D { x: x, y: y, layer: l };
                let ghost before = list@;
                list.push(here);
                proof {
                    assert forall|q: Position3D|
                        in_box(xs, ys, ls, q) && earlier(q, l as int, y as int, x + 1) implies #[trigger]
                        list@.contains(q) by {
                        if earlier(q, l as int, y as int, x as int) {
                            assert(before.contains(q));
                            let i = choose|i: int| 0 <= i < before.len() && before[i] == q;
                            assert(list@[i] == q);
                        } else {
                            assert(q == here);
                            assert(list@[before.len() as int] == q);
                        }
                    }
                }
                x += 1;
            }
            y += 1;
        }
        l += 1;
    }
    proof {
        assert forall|q: Position3D| list@.contains(q) implies in_box(xs, ys, ls, q) by {
            let i = choose|i: int| 0 <= i < list@.len() && list@[i] == q;
            assert(in_box(xs, ys, ls, list@[i]));
        }
    }
    list
}

} // verus!
