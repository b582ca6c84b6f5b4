//! The searches as a caller with raw arguments asks for them: an algorithm by
//! name, endpoints that may be missing, frames in place of layers.

use crate::algorithm::{lowercase_of, Algorithm};
use crate::field::{CostField, CostVolume, Position2D, Position3D};
use crate::search::{
    is_plane_outcome, is_volume_outcome, search_2d, search_volume, SearchError,
};
use vstd::prelude::*;

verus! {

/// The cell `p` of the layer `layer`, as the only member of a set; no set where
/// there is no cell.
pub open spec fn pinned(p: Option<Position2D>, layer: int) -> Option<Seq<Position3D>> {
    match p {
        Some(c) => Some(seq![Position3D { x: c.x, y: c.y, layer: layer as usize }]),
        None => None,
    }
}

/// Searches a single field, for which both endpoints must be given.
///
/// A missing start is reported before a missing end; with both given the result is
/// that of `search_2d`.
pub fn route_single(
    field: &CostField,
    start: Option<Position2D>,
    end: Option<Position2D>,
    algorithm: Algorithm,
) -> (out: Result<Option<(Vec<Position2D>, u64)>, SearchError>)
    ensures
        start is None ==> out == Err::<Option<(Vec<Position2D>, u64)>, SearchError>(SearchError::MissingStart),
        start is Some && end is None ==> out == Err::<Option<(Vec<Position2D>, u64)>, SearchError>(
            SearchError::MissingEnd,
        ),
        start is Some && end is Some ==> is_plane_outcome(field@, start->0, end->0, out),
{
    match start {
        None => Err(SearchError::MissingStart),
        Some(from) => match end {
            None => Err(SearchError::MissingEnd),
            Some(to) => search_2d(field, from, to, algorithm),
        },
    }
}

/// Searches a stack of frames along a forced axis.
///
/// A start that is given is a cell of the first frame, an end that is given a cell
/// of the last frame; the result is that of `search_volume` with these as the only
/// start and the only end.
pub fn route_frames(
    volume: &CostVolume,
    algorithm: Algorithm,
    start: Option<Position2D>,
    end: Option<Position2D>,
    reach: usize,
    axis: usize,
) -> (out: Result<Option<(Vec<Position3D>, u64)>, SearchError>)
    ensures
        is_volume_outcome(
            volume@,
            algorithm,
            pinned(start, 0),
            pinned(end, volume@.depth - 1),
            Some(reach),
            Some(axis),
            out,
        ),
{
    let depth = volume.depth();
    let cells = volume.cells();
    let starts: Option<Vec<Position3D>> = match start {
        Some(c) => Some(vec![Position3D { x: c.x, y: c.y, layer: 0 }]),
        None => None,
    };
    let ends: Option<Vec<Position3D>> = match end {
        Some(c) => Some(vec![Position3D { x: c.x, y: c.y, layer: depth - 1 }]),
        None => None,
    };
    proof {
        if start is Some {
            assert(starts->0@ =~= pinned(start, 0)->0);
        }
        if end is Some {
            assert(ends->0@ =~= pinned(end, volume@.depth - 1)->0);
        }
    }
    search_volume(volume, algorithm, starts, ends, Some(reach), Some(axis))
}

/// Searches a field with the algorithm that `algorithm` names: `astar`,
/// `dijkstra` or `fringe`, in any case of letters.
///
/// A name that names none of them is refused; otherwise the result is that of
/// `search_2d` with the algorithm named.
pub fn find_path_2d(field: &CostField, start: Position2D, end: Position2D, algorithm: &str) -> (out:
    Result<Option<(Vec<Position2D>, u64)>, SearchError>)
    ensures
        match Algorithm::named(lowercase_of(algorithm@)) {
            Some(a) => is_plane_outcome(field@, start, end, out),
            None => out == Err::<Option<(Vec<Position2D>, u64)>, SearchError>(
                SearchError::UnknownAlgorithm,
            ),
        },
{
    match Algorithm::from_name(algorithm) {
        Some(a) => search_2d(field, start, end, a),
        None => Err(SearchError::UnknownAlgorithm),
    }
}

/// Searches a volume from `start` to `end` with the algorithm that `algorithm`
/// names: `astar` or `dijkstra`, in any case of letters.
///
/// Any other name, `fringe` included, is refused; otherwise the result is that of
/// `search_volume` with the algorithm named and the two cells as the only start
/// and the only end.
pub fn find_route_temporal(
    volume: &CostVolume,
    algorithm: &str,
    start: Position3D,
    end: Position3D,
    reach: Option<usize>,
    axis: Option<usize>,
) -> (out: Result<Option<(Vec<Position3D>, u64)>, SearchError>)
    ensures
        match Algorithm::named(lowercase_of(algorithm@)) {
            Some(a) => if a == Algorithm::Fringe {
                out == Err::<Option<(Vec<Position3D>, u64)>, SearchError>(SearchError::UnknownAlgorithm)
            } else {
                is_volume_outcome(volume@, a, Some(seq![start]), Some(seq![end]), reach, axis, out)
            },
            None => out == Err::<Option<(Vec<Position3D>, u64)>, SearchError>(
                SearchError::UnknownAlgorithm,
            ),
        },
{
    match Algorithm::from_name(algorithm) {
        Some(Algorithm::Fringe) => Err(SearchError::UnknownAlgorithm),
        Some(a) => {
            let starts: Vec<Position3D> = vec![start];
            let ends: Vec<Position3D> = vec![end];
            proof {
                assert(starts@ =~= seq![start]);
                assert(ends@ =~= seq![end]);
            }
            search_volume(volume, a, Some(starts), Some(ends), reach, axis)
        },
        None => Err(SearchError::UnknownAlgorithm),
    }
}

} // verus!
