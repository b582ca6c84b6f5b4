//! The two searches the library offers: over a cost field, between two cells, and
//! over a cost volume, along a forced axis between two sets of cells.

use crate::algorithm::Algorithm;
use crate::field::{Axis, CostField, CostVolume, Position2D, Position3D, Terrain};
use crate::lattice::{box_positions, in_box, solve};
use crate::route::{is_route, links, route_cost, Moves};
use vstd::prelude::*;

verus! {

/// Why a search was refused before it began.
#[derive(Clone, Copy, Debug, PartialEq, Eq, Structural)]
pub enum SearchError {
    /// The algorithm does not support the kind of search asked for.
    Unsupported,
    /// The axis number names no axis.
    InvalidAxis,
    /// A set of starts was given and is empty.
    NoStarts,
    /// A set of ends was given and is empty.
    NoEnds,
    /// The start at `index` lies outside the array.
    StartOutOfBounds { index: usize },
    /// The end at `index` lies outside the array.
    EndOutOfBounds { index: usize },
    /// A search over a single field needs a start and none was given.
    MissingStart,
    /// A search over a single field needs an end and none was given.
    MissingEnd,
    /// The name names no algorithm that the search asked for supports.
    UnknownAlgorithm,
}

/// The reach of a volumetric search that names none.
pub const DEFAULT_REACH: usize = 1;

/// The cells of `p` as cells of a one-layer volume.
pub open spec fn lifted(p: Seq<Position2D>) -> Seq<Position3D> {
    p.map_values(|c: Position2D| c.lifted())
}

/// `p` is a path over the field `t`: a run of passable cells, each one of the
/// eight cells around the one before.
pub open spec fn is_path(t: Terrain, p: Seq<Position2D>) -> bool {
    is_route(t, Moves::Free, lifted(p))
}

/// The sum of the costs of the cells of `p`, the first included.
pub open spec fn path_cost(t: Terrain, p: Seq<Position2D>) -> nat {
    route_cost(t, lifted(p))
}

/// `p` is a path from `start` to `end`.
pub open spec fn joins(t: Terrain, start: Position2D, end: Position2D, p: Seq<Position2D>) -> bool {
    is_path(t, p) && p[0] == start && p.last() == end
}

/// What a search over a field owes: a path from `start` to `end` with its cost,
/// than which no such path costs less, or `None` exactly when there is no path.
pub open spec fn is_plane_verdict(
    t: Terrain,
    start: Position2D,
    end: Position2D,
    found: Option<(Vec<Position2D>, u64)>,
) -> bool {
    match found {
        Some((path, total)) => {
            &&& joins(t, start, end, path@)
            &&& path_cost(t, path@) == total
            &&& forall|q: Seq<Position2D>| joins(t, start, end, q) ==> total <= #[trigger] path_cost(t, q)
        },
        None => forall|q: Seq<Position2D>| !joins(t, start, end, q),
    }
}

/// Why a search over the field `t` from `start` to `end` is refused, if it is: the
/// start is looked at first.
pub open spec fn plane_fault(t: Terrain, start: Position2D, end: Position2D) -> Option<SearchError> {
    if !t.holds(start.lifted()) {
        Some(SearchError::StartOutOfBounds { index: 0 })
    } else if !t.holds(end.lifted()) {
        Some(SearchError::EndOutOfBounds { index: 0 })
    } else {
        None
    }
}

/// What a search over a field returns: the fault where there is one, and otherwise
/// what a search from `start` to `end` owes.
pub open spec fn is_plane_outcome(
    t: Terrain,
    start: Position2D,
    end: Position2D,
    out: Result<Option<(Vec<Position2D>, u64)>, SearchError>,
) -> bool {
    match out {
        Ok(found) => plane_fault(t, start, end) is None && is_plane_verdict(t, start, end, found),
        Err(e) => plane_fault(t, start, end) == Some(e),
    }
}

/// Searches `field` for a path of least cost from `start` to `end`.
///
/// A start or an end outside the field is refused. Otherwise the result is a path
/// of least cost with that cost, whichever algorithm is used, or `None` when no
/// path leads from `start` to `end`.
pub fn search_2d(field: &CostField, start: Position2D, end: Position2D, algorithm: Algorithm) -> (out:
    Result<Option<(Vec<Position2D>, u64)>, SearchError>)
    ensures
        is_plane_outcome(field@, start, end, out),
{
    let cells = field.cells();
    let width = field.width();
    let height = field.height();
    let ghost t = field@;
    if start.x >= width || start.y >= height {
        return Err(SearchError::StartOutOfBounds { index: 0 });
    }
    if end.x >= width || end.y >= height {
        return Err(SearchError::EndOutOfBounds { index: 0 });
    }
    let starts: Vec<Position3D> = vec![start.lift()];
    let ends: Vec<Position3D> = vec![end.lift()];
    proof {
        assert(t == Terrain { width: width as int, height: height as int, depth: 1, cells: cells@ });
    }
    let found = solve(cells, width, height, 1, Moves::Free, &starts, &ends, algorithm);
    match found {
        None => {
            proof {
                assert forall|q: Seq<Position2D>| !joins(t, start, end, q) by {
                    if joins(t, start, end, q) {
                        assert(starts@[0] == lifted(q)[0]);
                        assert(ends@[0] == lifted(q).last());
                        assert(links(t, Moves::Free, starts@, ends@, lifted(q)));
                    }
                }
            }
            Ok(None)
        },
        Some((route, total)) => {
            let mut path: Vec<Position2D> = Vec::new();
            let mut i: usize = 0;
            while i < route.len()
                invariant
                    i <= route@.len(),
                    path@.len() == i,
                    forall|k: int| 0 <= k < i ==> #[trigger] path@[k] == route@[k].flattened(),
                decreases route@.len() - i,
            {
                path.push(Position2D { x: route[i].x, y: route[i].y });
                i += 1;
            }
            proof {
                assert forall|k: int| 0 <= k < route@.len() implies lifted(path@)[k] == route@[k] by {
                    assert(t.passable(route@[k]));
                    assert(path@[k] == route@[k].flattened());
                }
                assert(lifted(path@) =~= route@);
                let k0 = choose|k: int| 0 <= k < starts@.len() && starts@[k] == route@[0];
                let k1 = choose|k: int| 0 <= k < ends@.len() && ends@[k] == route@.last();
                assert(path@[0] == start);
                assert(path@.last() == end);
                assert forall|q: Seq<Position2D>| joins(t, start, end, q) implies total <= #[trigger] path_cost(
                    t,
                    q,
                ) by {
                    assert(starts@[0] == lifted(q)[0]);
                    assert(ends@[0] == lifted(q).last());
                    assert(links(t, Moves::Free, starts@, ends@, lifted(q)));
                }
            }
            Ok(Some((path, total)))
        },
    }
}

/// The axis a volumetric search is forced along: the one numbered, or the layer
/// axis where none is named. `None` where the number names no axis.
pub open spec fn chosen_axis(axis: Option<usize>) -> Option<Axis> {
    match axis {
        Some(index) => Axis::numbered(index as int),
        None => Some(Axis::Layer),
    }
}

/// The reach of a volumetric search: the one named, or one.
pub open spec fn chosen_reach(reach: Option<usize>) -> usize {
    match reach {
        Some(r) => r,
        None => DEFAULT_REACH,
    }
}

/// The least index at which `list` holds a position outside `t`.
pub open spec fn first_outside(t: Terrain, list: Seq<Position3D>) -> Option<int> {
    if exists|i: int| 0 <= i < list.len() && !t.holds(#[trigger] list[i]) {
        Some(
            choose|i: int|
                0 <= i < list.len() && !t.holds(#[trigger] list[i]) && forall|j: int|
                    0 <= j < i ==> t.holds(#[trigger] list[j]),
        )
    } else {
        None
    }
}

/// Why a set of starts (or, where `of_starts` is false, of ends) is refused, if it
/// is: a set that is given must not be empty and must lie inside `t`.
pub open spec fn endpoint_fault(t: Terrain, set: Option<Seq<Position3D>>, of_starts: bool) -> Option<
    SearchError,
> {
    match set {
        None => None,
        Some(list) => if list.len() == 0 {
            if of_starts {
                Some(SearchError::NoStarts)
            } else {
                Some(SearchError::NoEnds)
            }
        } else {
            match first_outside(t, list) {
                Some(i) => if of_starts {
                    Some(SearchError::StartOutOfBounds { index: i as usize })
                } else {
                    Some(SearchError::EndOutOfBounds { index: i as usize })
                },
                None => None,
            }
        },
    }
}

/// Why a volumetric search is refused, if it is. The algorithm is looked at first,
/// then the axis, then the starts, then the ends.
pub open spec fn volume_fault(
    t: Terrain,
    algorithm: Algorithm,
    starts: Option<Seq<Position3D>>,
    ends: Option<Seq<Position3D>>,
    axis: Option<usize>,
) -> Option<SearchError> {
    if algorithm == Algorithm::Fringe {
        Some(SearchError::Unsupported)
    } else if chosen_axis(axis) is None {
        Some(SearchError::InvalidAxis)
    } else if endpoint_fault(t, starts, true) is Some {
        endpoint_fault(t, starts, true)
    } else {
        endpoint_fault(t, ends, false)
    }
}

/// Whether a route may begin at `p`: at one of the starts given, or, where none
/// are given, anywhere on the first layer along `axis`.
pub open spec fn may_start(t: Terrain, axis: Axis, starts: Option<Seq<Position3D>>, p: Position3D) -> bool {
    match starts {
        Some(list) => list.contains(p),
        None => t.holds(p) && p.along(axis) == 0,
    }
}

/// Whether a route may end at `p`: at one of the ends given, or, where none are
/// given, anywhere on the last layer along `axis`.
pub open spec fn may_end(t: Terrain, axis: Axis, ends: Option<Seq<Position3D>>, p: Position3D) -> bool {
    match ends {
        Some(list) => list.contains(p),
        None => t.holds(p) && p.along(axis) == t.extent(axis) - 1,
    }
}

/// `p` is a route along `axis` with the given reach from where routes may start to
/// where they may end.
pub open spec fn crosses(
    t: Terrain,
    axis: Axis,
    reach: usize,
    starts: Option<Seq<Position3D>>,
    ends: Option<Seq<Position3D>>,
    p: Seq<Position3D>,
) -> bool {
    &&& is_route(t, Moves::Forced { axis, reach }, p)
    &&& may_start(t, axis, starts, p[0])
    &&& may_end(t, axis, ends, p.last())
}

/// The positions of a set that is given.
pub open spec fn views(set: Option<Vec<Position3D>>) -> Option<Seq<Position3D>> {
    match set {
        Some(list) => Some(list@),
        None => None,
    }
}

/// What a search over a volume owes: a route that crosses with its cost, than
/// which no such route costs less, or `None` exactly when no route crosses.
pub open spec fn is_volume_verdict(
    t: Terrain,
    axis: Axis,
    reach: usize,
    starts: Option<Seq<Position3D>>,
    ends: Option<Seq<Position3D>>,
    found: Option<(Vec<Position3D>, u64)>,
) -> bool {
    match found {
        Some((path, total)) => {
            &&& crosses(t, axis, reach, starts, ends, path@)
            &&& route_cost(t, path@) == total
            &&& forall|q: Seq<Position3D>|
                crosses(t, axis, reach, starts, ends, q) ==> total <= #[trigger] route_cost(t, q)
        },
        None => forall|q: Seq<Position3D>| !crosses(t, axis, reach, starts, ends, q),
    }
}

/// What a volumetric search returns: the fault where there is one, and otherwise
/// what a search along the chosen axis with the chosen reach owes.
pub open spec fn is_volume_outcome(
    t: Terrain,
    algorithm: Algorithm,
    starts: Option<Seq<Position3D>>,
    ends: Option<Seq<Position3D>>,
    reach: Option<usize>,
    axis: Option<usize>,
    out: Result<Option<(Vec<Position3D>, u64)>, SearchError>,
) -> bool {
    match out {
        Ok(found) => volume_fault(t, algorithm, starts, ends, axis) is None && is_volume_verdict(
            t,
            chosen_axis(axis)->0,
            chosen_reach(reach),
            starts,
            ends,
            found,
        ),
        Err(e) => volume_fault(t, algorithm, starts, ends, axis) == Some(e),
    }
}

/// The index of the first position of `list` outside the array of the given
/// extents, if there is one.
fn find_outside(width: usize, height: usize, depth: usize, list: &Vec<Position3D>, Ghost(t): Ghost<
    Terrain,
>) -> (r: Option<usize>)
    requires
        t.width == width,
        t.height == height,
        t.depth == depth,
    ensures
        match r {
            Some(i) => first_outside(t, list@) == Some(i as int),
            None => first_outside(t, list@) is None && forall|i: int|
                0 <= i < list@.len() ==> t.holds(#[trigger] list@[i]),
        },
{
    let mut i: usize = 0;
    while i < list.len()
        invariant
            t.width == width,
            t.height == height,
            t.depth == depth,
            i <= list@.len(),
            forall|j: int| 0 <= j < i ==> t.holds(#[trigger] list@[j]),
        decreases list@.len() - i,
    {
        let p = list[i];
        if p.x >= width || p.y >= height || p.layer >= depth {
            proof {
                assert(!t.holds(list@[i as int]));
                let m = first_outside(t, list@)->0;
                assert(m == i as int) by {
                    if m < i {
                        assert(t.holds(list@[m]));
                    } else if m > i {
                        assert(t.holds(list@[i as int]));
                    }
                }
            }
            return Some(i);
        }
        i += 1;
    }
    None
}

/// Every position of the volume whose coordinate along `axis` is `c`.
fn slab(width: usize, height: usize, depth: usize, axis: Axis, c: usize, Ghost(t): Ghost<Terrain>) -> (list:
    Vec<Position3D>)
    requires
        t.width == width,
        t.height == height,
        t.depth == depth,
        c < t.extent(axis),
    ensures
        forall|p: Position3D| list@.contains(p) <==> t.holds(p) && p.along(axis) == c,
{
    let (xs, ys, ls) = match axis {
        Axis::X => ((c, c + 1), (0, height), (0, depth)),
        Axis::Y => ((0, width), (c, c + 1), (0, depth)),
        Axis::Layer => ((0, width), (0, height), (c, c + 1)),
    };
    let list = box_positions(xs, ys, ls);
    proof {
        assert forall|p: Position3D| list@.contains(p) <==> t.holds(p) && p.along(axis) == c by {
            assert(in_box(xs, ys, ls, p) <==> t.holds(p) && p.along(axis) == c);
        }
    }
    list
}

/// Searches `volume` for a route of least cost that advances one layer per move
/// along the forced axis and moves at most `reach` cells sideways per move.
///
/// `axis` numbers the forced axis (0 for x, 1 for y, 2 for the layers) and is the
/// layer axis where `None`; `reach` is one where `None`. Where `starts` is `None`
/// a route may begin anywhere on the first layer, and where `ends` is `None` it
/// may end anywhere on the last. Fringe search is refused. The result is a route
/// of least cost with that cost, whichever algorithm is used, or `None` when no
/// route crosses.
pub fn search_volume(
    volume: &CostVolume,
    algorithm: Algorithm,
    starts: Option<Vec<Position3D>>,
    ends: Option<Vec<Position3D>>,
    reach: Option<usize>,
    axis: Option<usize>,
) -> (out: Result<Option<(Vec<Position3D>, u64)>, SearchError>)
    ensures
        is_volume_outcome(volume@, algorithm, views(starts), views(ends), reach, axis, out),
{
    let ghost t = volume@;
    let cells = volume.cells();
    let width = volume.width();
    let height = volume.height();
    let depth = volume.depth();
    match algorithm {
        Algorithm::Fringe => {
            return Err(SearchError::Unsupported);
        },
        _ => {},
    }
    let along: Axis = match axis {
        Some(index) => match Axis::from_index(index) {
            Some(a) => a,
            None => {
                return Err(SearchError::InvalidAxis);
            },
        },
        None => Axis::Layer,
    };
    let span: usize = match reach {
        Some(r) => r,
        None => DEFAULT_REACH,
    };
    let first: Vec<Position3D> = match &starts {
        Some(list) => {
            if list.len() == 0 {
                return Err(SearchError::NoStarts);
            }
            match find_outside(width, height, depth, list, Ghost(t)) {
                Some(index) => {
                    return Err(SearchError::StartOutOfBounds { index });
                },
                None => {},
            }
            copy_of(list)
        },
        None => slab(width, height, depth, along, 0, Ghost(t)),
    };
    let last: Vec<Position3D> = match &ends {
        Some(list) => {
            if list.len() == 0 {
                return Err(SearchError::NoEnds);
            }
            match find_outside(width, height, depth, list, Ghost(t)) {
                Some(index) => {
                    return Err(SearchError::EndOutOfBounds { index });
                },
                None => {},
            }
            copy_of(list)
        },
        None => slab(width, height, depth, along, volume.extent(along) - 1, Ghost(t)),
    };
    let moves = Moves::Forced { axis: along, reach: span };
    proof {
        assert(t == Terrain {
            width: width as int,
            height: height as int,
            depth: depth as int,
            cells: cells@,
        });
        assert forall|p: Position3D| first@.contains(p) <==> may_start(t, along, views(starts), p) by {}
        assert forall|p: Position3D| last@.contains(p) <==> may_end(t, along, views(ends), p) by {}
        assert forall|i: int| 0 <= i < first@.len() implies t.holds(#[trigger] first@[i]) by {
            assert(first@.contains(first@[i]));
        }
        assert forall|i: int| 0 <= i < last@.len() implies t.holds(#[trigger] last@[i]) by {
            assert(last@.contains(last@[i]));
        }
        assert forall|q: Seq<Position3D>|
            links(t, moves, first@, last@, q) <==> crosses(t, along, span, views(starts), views(ends), q) by {}
    }
    let found = solve(cells, width, height, depth, moves, &first, &last, algorithm);
    proof {
        let from = views(starts);
        let to = views(ends);
        assert(chosen_axis(axis) == Some(along));
        assert(chosen_reach(reach) == span);
        assert(volume_fault(t, algorithm, from, to, axis) is None);
        if found is Some {
            let pair = found->0;
            let path = pair.0;
            let total = pair.1;
            assert(links(t, moves, first@, last@, path@));
            assert(crosses(t, along, span, from, to, path@));
            assert forall|q: Seq<Position3D>| crosses(t, along, span, from, to, q) implies total
                <= #[trigger] route_cost(t, q) by {
                assert(links(t, moves, first@, last@, q));
            }
        } else {
            assert forall|q: Seq<Position3D>| !crosses(t, along, span, from, to, q) by {
                if crosses(t, along, span, from, to, q) {
                    assert(links(t, moves, first@, last@, q));
                }
            }
        }
    }
    Ok(found)
}

/// A copy of `list`.
fn copy_of(list: &Vec<Position3D>) -> (copy: Vec<Position3D>)
    ensures
        copy@ == list@,
{
    let mut copy: Vec<Position3D> = Vec::new();
    let mut i: usize = 0;
    while i < list.len()
        invariant
            i <= list@.len(),
            copy@ == list@.take(i as int),
        decreases list@.len() - i,
    {
        copy.push(list[i]);
        proof {
            assert(list@.take(i + 1) =~= list@.take(i as int).push(list@[i as int]));
        }
        i += 1;
    }
    proof {
        assert(list@.take(i as int) =~= list@);
    }
    copy
}

} // verus!
