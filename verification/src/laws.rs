//! What the contracts of the searches imply, whichever algorithm ran.

use crate::algorithm::Algorithm;
use crate::field::{Axis, Position2D, Position3D, Terrain, IMPASSABLE};
use crate::lattice::span;
use crate::route::{is_route, route_cost, Moves};
use crate::graph::{is_walk, lemma_bias_telescopes, lemma_cost_step, walk_cost, SearchSpace};
use crate::search::{
    crosses, is_path, is_plane_outcome, is_plane_verdict, is_volume_outcome, is_volume_verdict,
    joins, lifted, path_cost, SearchError,
};
use vstd::prelude::*;

verus! {

/// Two results that are right for the same field and the same two cells agree:
/// both hold a path or neither does, and the two paths cost the same. This holds
/// of the results of different algorithms and of the same algorithm run twice.
pub proof fn lemma_plane_verdicts_agree(
    t: Terrain,
    start: Position2D,
    end: Position2D,
    a: Option<(Vec<Position2D>, u64)>,
    b: Option<(Vec<Position2D>, u64)>,
)
    requires
        is_plane_verdict(t, start, end, a),
        is_plane_verdict(t, start, end, b),
    ensures
        a is Some <==> b is Some,
        a is Some ==> (a->0).1 == (b->0).1,
{
    if a is Some && b is Some {
        let pa = (a->0).0;
        let pb = (b->0).0;
        assert(joins(t, start, end, pa@));
        assert(joins(t, start, end, pb@));
        assert((a->0).1 <= path_cost(t, pb@));
        assert((b->0).1 <= path_cost(t, pa@));
    } else if a is Some {
        assert(joins(t, start, end, (a->0).0@));
    } else if b is Some {
        assert(joins(t, start, end, (b->0).0@));
    }
}

/// Whatever two algorithms return for the same field and the same two cells, they
/// fail alike or succeed alike, and where they find paths the costs are equal.
pub proof fn lemma_plane_outcomes_agree(
    t: Terrain,
    start: Position2D,
    end: Position2D,
    a: Result<Option<(Vec<Position2D>, u64)>, SearchError>,
    b: Result<Option<(Vec<Position2D>, u64)>, SearchError>,
)
    requires
        is_plane_outcome(t, start, end, a),
        is_plane_outcome(t, start, end, b),
    ensures
        a is Err <==> b is Err,
        a is Err ==> a->Err_0 == b->Err_0,
        a is Ok ==> ((a->Ok_0) is Some <==> (b->Ok_0) is Some),
        a is Ok && (a->Ok_0) is Some ==> ((a->Ok_0)->0).1 == ((b->Ok_0)->0).1,
{
    if a is Ok {
        lemma_plane_verdicts_agree(t, start, end, a->Ok_0, b->Ok_0);
    }
}

/// Where one path costs less than every other path between the two cells, every
/// algorithm returns that path, every time: results differ in their paths only
/// where several paths are cheapest.
pub proof fn lemma_single_best_path(
    t: Terrain,
    start: Position2D,
    end: Position2D,
    best: Seq<Position2D>,
    found: Option<(Vec<Position2D>, u64)>,
)
    requires
        is_plane_verdict(t, start, end, found),
        joins(t, start, end, best),
        forall|q: Seq<Position2D>|
            joins(t, start, end, q) && q != best ==> path_cost(t, best) < #[trigger] path_cost(t, q),
    ensures
        found is Some,
        (found->0).0@ == best,
        (found->0).1 == path_cost(t, best),
{
    let p = (found->0).0@;
    assert(joins(t, start, end, p));
    assert((found->0).1 <= path_cost(t, best));
}

/// Where one route costs less than every other route that crosses, both
/// algorithms return that route, every time.
pub proof fn lemma_single_best_route(
    t: Terrain,
    axis: Axis,
    reach: usize,
    starts: Option<Seq<Position3D>>,
    ends: Option<Seq<Position3D>>,
    best: Seq<Position3D>,
    found: Option<(Vec<Position3D>, u64)>,
)
    requires
        is_volume_verdict(t, axis, reach, starts, ends, found),
        crosses(t, axis, reach, starts, ends, best),
        forall|q: Seq<Position3D>|
            crosses(t, axis, reach, starts, ends, q) && q != best ==> route_cost(t, best)
                < #[trigger] route_cost(t, q),
    ensures
        found is Some,
        (found->0).0@ == best,
        (found->0).1 == route_cost(t, best),
{
    let p = (found->0).0@;
    assert(crosses(t, axis, reach, starts, ends, p));
    assert((found->0).1 <= route_cost(t, best));
}

/// Two results that are right for the same volume, axis, reach and endpoint sets
/// agree: both hold a route or neither does, and the two routes cost the same.
pub proof fn lemma_volume_verdicts_agree(
    t: Terrain,
    axis: Axis,
    reach: usize,
    starts: Option<Seq<Position3D>>,
    ends: Option<Seq<Position3D>>,
    a: Option<(Vec<Position3D>, u64)>,
    b: Option<(Vec<Position3D>, u64)>,
)
    requires
        is_volume_verdict(t, axis, reach, starts, ends, a),
        is_volume_verdict(t, axis, reach, starts, ends, b),
    ensures
        a is Some <==> b is Some,
        a is Some ==> (a->0).1 == (b->0).1,
{
    if a is Some && b is Some {
        let pa = (a->0).0;
        let pb = (b->0).0;
        assert(crosses(t, axis, reach, starts, ends, pa@));
        assert(crosses(t, axis, reach, starts, ends, pb@));
        assert((a->0).1 <= route_cost(t, pb@));
        assert((b->0).1 <= route_cost(t, pa@));
    } else if a is Some {
        assert(crosses(t, axis, reach, starts, ends, (a->0).0@));
    } else if b is Some {
        assert(crosses(t, axis, reach, starts, ends, (b->0).0@));
    }
}

/// Uniform-cost and heuristic-guided search return, for the same volume, reach,
/// axis and endpoint sets, the same fault or the same cost.
pub proof fn lemma_volume_outcomes_agree(
    t: Terrain,
    starts: Option<Seq<Position3D>>,
    ends: Option<Seq<Position3D>>,
    reach: Option<usize>,
    axis: Option<usize>,
    a: Result<Option<(Vec<Position3D>, u64)>, SearchError>,
    b: Result<Option<(Vec<Position3D>, u64)>, SearchError>,
)
    requires
        is_volume_outcome(t, Algorithm::UniformCost, starts, ends, reach, axis, a),
        is_volume_outcome(t, Algorithm::HeuristicGuided, starts, ends, reach, axis, b),
    ensures
        a is Err <==> b is Err,
        a is Err ==> a->Err_0 == b->Err_0,
        a is Ok ==> ((a->Ok_0) is Some <==> (b->Ok_0) is Some),
        a is Ok && (a->Ok_0) is Some ==> ((a->Ok_0)->0).1 == ((b->Ok_0)->0).1,
{
    if a is Ok {
        lemma_volume_verdicts_agree(
            t,
            crate::search::chosen_axis(axis)->0,
            crate::search::chosen_reach(reach),
            starts,
            ends,
            a->Ok_0,
            b->Ok_0,
        );
    }
}

/// Every move of a route along a forced axis advances by exactly one along that
/// axis and by no more than the reach along each of the other two.
pub proof fn lemma_forced_move(t: Terrain, axis: Axis, reach: usize, p: Seq<Position3D>, i: int)
    requires
        is_route(t, Moves::Forced { axis, reach }, p),
        0 < i < p.len(),
    ensures
        p[i].along(axis) == p[i - 1].along(axis) + 1,
        forall|other: Axis| other != axis ==> span(p[i].along(other), p[i - 1].along(other)) <= reach,
{
    let moves = Moves::Forced { axis, reach };
    assert(moves.allows(p[i - 1], p[i]));
}

/// Along a route with a forced axis the coordinate on that axis counts the moves:
/// it starts where the route starts and grows by one with every cell, so that no
/// layer is stood on twice and the route is no longer than the volume is deep.
pub proof fn lemma_forced_layers(t: Terrain, axis: Axis, reach: usize, p: Seq<Position3D>, i: int)
    requires
        is_route(t, Moves::Forced { axis, reach }, p),
        0 <= i < p.len(),
    ensures
        p[i].along(axis) == p[0].along(axis) + i,
        p.len() <= t.extent(axis),
{
    lemma_forced_count(t, axis, reach, p, i);
    lemma_forced_count(t, axis, reach, p, p.len() - 1);
    assert(t.passable(p[p.len() - 1]));
}

/// The coordinate along the forced axis after `i` moves.
proof fn lemma_forced_count(t: Terrain, axis: Axis, reach: usize, p: Seq<Position3D>, i: int)
    requires
        is_route(t, Moves::Forced { axis, reach }, p),
        0 <= i < p.len(),
    ensures
        p[i].along(axis) == p[0].along(axis) + i,
    decreases i,
{
    if i > 0 {
        lemma_forced_count(t, axis, reach, p, i - 1);
        lemma_forced_move(t, axis, reach, p, i);
    }
}

/// The cost of a route is the sum of the costs of its cells: a route of one cell
/// costs that cell, and a route made of two runs costs the two together.
pub proof fn lemma_cost_adds(t: Terrain, p: Seq<Position3D>, q: Seq<Position3D>)
    ensures
        route_cost(t, Seq::<Position3D>::empty()) == 0,
        p.len() == 1 ==> route_cost(t, p) == t.toll(p[0]),
        route_cost(t, p + q) == route_cost(t, p) + route_cost(t, q),
    decreases q.len(),
{
    if p.len() == 1 {
        assert(p.drop_last() =~= Seq::<Position3D>::empty());
        assert(route_cost(t, p.drop_last()) == 0);
    }
    if q.len() == 0 {
        assert(p + q =~= p);
    } else {
        assert((p + q).drop_last() =~= p + q.drop_last());
        assert((p + q).last() == q.last());
        lemma_cost_adds(t, p, q.drop_last());
    }
}

/// A path stands on no impassable cell, so where the start or the end is
/// impassable, or impassable cells leave no path between them, the search
/// returns `None`, whichever algorithm ran.
pub proof fn lemma_no_path(
    t: Terrain,
    start: Position2D,
    end: Position2D,
    found: Option<(Vec<Position2D>, u64)>,
)
    requires
        is_plane_verdict(t, start, end, found),
    ensures
        forall|p: Seq<Position2D>, i: int|
            is_path(t, p) && 0 <= i < p.len() ==> t.toll(#[trigger] p[i].lifted()) < IMPASSABLE,
        found is None <==> forall|p: Seq<Position2D>| !joins(t, start, end, p),
        t.toll(start.lifted()) == IMPASSABLE || t.toll(end.lifted()) == IMPASSABLE ==> found is None,
{
    assert forall|p: Seq<Position2D>, i: int| is_path(t, p) && 0 <= i < p.len() implies t.toll(
        #[trigger] p[i].lifted(),
    ) < IMPASSABLE by {
        assert(t.passable(lifted(p)[i]));
    }
    if found is Some {
        let p = (found->0).0@;
        assert(joins(t, start, end, p));
        assert(t.passable(lifted(p)[0]));
        assert(t.passable(lifted(p)[p.len() - 1]));
    }
}

/// Over a field, a path is what it is said to be cell by cell: every cell lies in
/// the field and costs less than the impassable cost, and each cell differs from
/// the one before by at most one column and one row, and is not the same cell.
pub proof fn lemma_path_unfolded(t: Terrain, p: Seq<Position2D>)
    requires
        t.wf(),
        t.depth == 1,
    ensures
        is_path(t, p) <==> {
            &&& p.len() > 0
            &&& forall|i: int|
                0 <= i < p.len() ==> (#[trigger] p[i]).x < t.width && p[i].y < t.height && t.cells[p[i].y
                    * t.width + p[i].x] < IMPASSABLE
            &&& forall|i: int|
                0 < i < p.len() ==> (#[trigger] p[i]) != p[i - 1] && span(
                    p[i].x as int,
                    p[i - 1].x as int,
                ) <= 1 && span(p[i].y as int, p[i - 1].y as int) <= 1
        },
{
    let q = lifted(p);
    assert forall|i: int| 0 <= i < p.len() implies t.index(#[trigger] q[i]) == p[i].y * t.width + p[i].x by {
        assert((0 * t.height + p[i].y) * t.width == p[i].y * t.width);
    }
    if is_path(t, p) {
        assert forall|i: int| 0 <= i < p.len() implies (#[trigger] p[i]).x < t.width && p[i].y < t.height
            && t.cells[p[i].y * t.width + p[i].x] < IMPASSABLE by {
            assert(t.passable(q[i]));
        }
        assert forall|i: int| 0 < i < p.len() implies (#[trigger] p[i]) != p[i - 1] && span(
            p[i].x as int,
            p[i - 1].x as int,
        ) <= 1 && span(p[i].y as int, p[i - 1].y as int) <= 1 by {
            assert(Moves::Free.allows(q[i - 1], q[i]));
        }
    }
    if p.len() > 0 && (forall|i: int|
        0 <= i < p.len() ==> (#[trigger] p[i]).x < t.width && p[i].y < t.height && t.cells[p[i].y
            * t.width + p[i].x] < IMPASSABLE) && (forall|i: int|
        0 < i < p.len() ==> (#[trigger] p[i]) != p[i - 1] && span(p[i].x as int, p[i - 1].x as int) <= 1
            && span(p[i].y as int, p[i - 1].y as int) <= 1) {
        assert forall|i: int| 0 <= i < q.len() implies t.passable(#[trigger] q[i]) by {
            assert(p[i].x < t.width);
        }
        assert forall|i: int| 0 < i < q.len() implies Moves::Free.allows(q[i - 1], #[trigger] q[i]) by {
            assert(p[i] != p[i - 1]);
        }
    }
}

/// A cell on the last layer along the forced axis has no cell of the volume to
/// move to.
pub proof fn lemma_last_layer_is_final(t: Terrain, axis: Axis, reach: usize, a: Position3D, b: Position3D)
    requires
        t.holds(a),
        a.along(axis) == t.extent(axis) - 1,
        (Moves::Forced { axis, reach }).allows(a, b),
    ensures
        !t.holds(b),
{
}

/// A route along a forced axis never stands on the same cell twice.
pub proof fn lemma_forced_no_repeat(
    t: Terrain,
    axis: Axis,
    reach: usize,
    p: Seq<Position3D>,
    i: int,
    j: int,
)
    requires
        is_route(t, Moves::Forced { axis, reach }, p),
        0 <= i < j < p.len(),
    ensures
        p[i] != p[j],
        p[i].along(axis) < p[j].along(axis),
{
    lemma_forced_layers(t, axis, reach, p, i);
    lemma_forced_layers(t, axis, reach, p, j);
}

/// The estimate of a search space never overestimates: from any cell, no route to
/// a goal costs less beyond that cell than the estimate says remains.
pub proof fn lemma_estimate_admissible<S: SearchSpace>(s: &S, r: Seq<int>)
    requires
        s.wf(),
        is_walk(s, r),
        s.is_goal(r.last()),
    ensures
        s.toll(r[0]) + s.remaining(r[0]) <= walk_cost(s, r),
{
    lemma_bias_telescopes(s, true, r, 1);
    lemma_cost_step(s, r, 0);
    assert(r.take(0) =~= Seq::<int>::empty());
    s.lemma_estimate_goal(r.last());
}

} // verus!
