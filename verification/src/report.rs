//! A route through a stack of frames, frame by frame.

use crate::field::{Position2D, Position3D};
use vstd::prelude::*;

verus! {

/// The cells of `path` that lie on `layer`, in the order of the path, without
/// their layer.
pub open spec fn on_layer(path: Seq<Position3D>, layer: int) -> Seq<Position2D> {
    path.filter(|p: Position3D| p.layer == layer).map_values(|p: Position3D| p.flattened())
}

/// The cells of the first `i` cells of a path that lie on a layer, one more cell
/// taken in.
proof fn lemma_on_layer_step(path: Seq<Position3D>, layer: int, i: int)
    requires
        0 <= i < path.len(),
    ensures
        on_layer(path.take(i + 1), layer) == if path[i].layer == layer {
            on_layer(path.take(i), layer).push(path[i].flattened())
        } else {
            on_layer(path.take(i), layer)
        },
{
    let keep = |p: Position3D| p.layer == layer;
    let flat = |p: Position3D| p.flattened();
    let more = path.take(i + 1);
    assert(more.drop_last() =~= path.take(i));
    assert(more.last() == path[i]);
    reveal_with_fuel(Seq::filter, 2);
    if path[i].layer == layer {
        assert(more.filter(keep) =~= path.take(i).filter(keep).push(path[i]));
        assert(more.filter(keep).map_values(flat) =~= path.take(i).filter(keep).map_values(flat).push(
            path[i].flattened(),
        ));
    } else {
        assert(more.filter(keep) =~= path.take(i).filter(keep));
    }
}

/// The cells of `path` that lie on `layer`, in the order of the path.
pub fn layer_points(path: &Vec<Position3D>, layer: usize) -> (row: Vec<Position2D>)
    ensures
        row@ == on_layer(path@, layer as int),
{
    let mut row: Vec<Position2D> = Vec::new();
    let mut i: usize = 0;
    proof {
        assert(path@.take(0) =~= Seq::<Position3D>::empty());
        assert(on_layer(path@.take(0), layer as int) =~= Seq::<Position2D>::empty());
    }
    while i < path.len()
        invariant
            i <= path@.len(),
            row@ == on_layer(path@.take(i as int), layer as int),
        decreases path@.len() - i,
    {
        proof {
            lemma_on_layer_step(path@, layer as int, i as int);
        }
        if path[i].layer == layer {
            row.push(Position2D { x: path[i].x, y: path[i].y });
        }
        i += 1;
    }
    proof {
        assert(path@.take(i as int) =~= path@);
    }
    row
}

/// For each of the first `layers` layers, the cells of `path` that lie on it, in
/// the order of the path.
pub fn points_by_layer(path: &Vec<Position3D>, layers: usize) -> (rows: Vec<Vec<Position2D>>)
    ensures
        rows@.len() == layers,
        forall|t: int| 0 <= t < layers ==> (#[trigger] rows@[t])@ == on_layer(path@, t),
{
    let mut rows: Vec<Vec<Position2D>> = Vec::new();
    let mut t: usize = 0;
    while t < layers
        invariant
            t <= layers,
            rows@.len() == t,
            forall|k: int| 0 <= k < t ==> (#[trigger] rows@[k])@ == on_layer(path@, k),
        decreases layers - t,
    {
        rows.push(layer_points(path, t));
        t += 1;
    }
    rows
}

} // verus!
