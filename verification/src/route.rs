//! What a route over a cost array is: the moves it may make, the cells it may
//! stand on, and what it costs.

use crate::field::{Axis, Position3D, Terrain};
use vstd::prelude::*;

verus! {

/// How one coordinate may change in a single move.
#[derive(Clone, Copy, Debug, PartialEq, Eq, Structural)]
pub enum Step {
    /// The coordinate changes by at most this much, in either direction.
    Within(usize),
    /// The coordinate grows by exactly one.
    Advance,
}

/// The rule that says which moves a route may make.
#[derive(Clone, Copy, Debug, PartialEq, Eq, Structural)]
pub enum Moves {
    /// Free movement within a layer: to any of the eight surrounding cells.
    Free,
    /// Every move advances by exactly one along `axis` and changes each of the
    /// other two coordinates by at most `reach`.
    Forced { axis: Axis, reach: usize },
}

/// Whether a coordinate may go from `from` to `to` in one move under `step`.
pub open spec fn fits(step: Step, from: int, to: int) -> bool {
    match step {
        Step::Within(reach) => from - reach <= to <= from + reach,
        Step::Advance => to == from + 1,
    }
}

impl Moves {
    /// How the coordinate along `axis` may change in one move.
    pub open spec fn step(self, axis: Axis) -> Step {
        match self {
            Moves::Free => if axis == Axis::Layer {
                Step::Within(0)
            } else {
                Step::Within(1)
            },
            Moves::Forced { axis: forced, reach } => if axis == forced {
                Step::Advance
            } else {
                Step::Within(reach)
            },
        }
    }

    /// How the coordinate along `axis` may change in one move.
    pub fn step_of(self, axis: Axis) -> (s: Step)
        ensures
            s == self.step(axis),
    {
        match self {
            Moves::Free => match axis {
                Axis::Layer => Step::Within(0),
                _ => Step::Within(1),
            },
            Moves::Forced { axis: forced, reach } => {
                let same = match (axis, forced) {
                    (Axis::X, Axis::X) => true,
                    (Axis::Y, Axis::Y) => true,
                    (Axis::Layer, Axis::Layer) => true,
                    _ => false,
                };
                if same {
                    Step::Advance
                } else {
                    Step::Within(reach)
                }
            },
        }
    }

    /// Whether one move leads from `a` to `b`: the two differ, and each coordinate
    /// changes as its step allows.
    pub open spec fn allows(self, a: Position3D, b: Position3D) -> bool {
        &&& a != b
        &&& fits(self.step(Axis::X), a.x as int, b.x as int)
        &&& fits(self.step(Axis::Y), a.y as int, b.y as int)
        &&& fits(self.step(Axis::Layer), a.layer as int, b.layer as int)
    }
}

/// `p` is a route over `t` under `moves`: it is not empty, stands on passable
/// cells only, and each cell is one move from the cell before.
pub open spec fn is_route(t: Terrain, moves: Moves, p: Seq<Position3D>) -> bool {
    &&& p.len() > 0
    &&& forall|i: int| 0 <= i < p.len() ==> t.passable(#[trigger] p[i])
    &&& forall|i: int| 0 < i < p.len() ==> moves.allows(p[i - 1], #[trigger] p[i])
}

/// The sum of the costs of the cells of `p`, the first included.
pub open spec fn route_cost(t: Terrain, p: Seq<Position3D>) -> nat
    decreases p.len(),
{
    if p.len() == 0 {
        0
    } else {
        route_cost(t, p.drop_last()) + t.toll(p.last()) as nat
    }
}

/// `p` is a route that begins at one of `starts` and ends at one of `ends`.
pub open spec fn links(
    t: Terrain,
    moves: Moves,
    starts: Seq<Position3D>,
    ends: Seq<Position3D>,
    p: Seq<Position3D>,
) -> bool {
    is_route(t, moves, p) && starts.contains(p[0]) && ends.contains(p.last())
}

/// `p` links `starts` to `ends`, costs `total`, and no route that links them costs
/// less.
pub open spec fn is_best(
    t: Terrain,
    moves: Moves,
    starts: Seq<Position3D>,
    ends: Seq<Position3D>,
    p: Seq<Position3D>,
    total: nat,
) -> bool {
    &&& links(t, moves, starts, ends, p)
    &&& route_cost(t, p) == total
    &&& forall|q: Seq<Position3D>| links(t, moves, starts, ends, q) ==> total <= #[trigger] route_cost(t, q)
}

/// The result of a search is right: a best route with its cost, or `None` exactly
/// when no route links `starts` to `ends`.
pub open spec fn is_verdict(
    t: Terrain,
    moves: Moves,
    starts: Seq<Position3D>,
    ends: Seq<Position3D>,
    out: Option<(Vec<Position3D>, u64)>,
) -> bool {
    match out {
        Some((path, total)) => is_best(t, moves, starts, ends, path@, total as nat),
        None => forall|q: Seq<Position3D>| !links(t, moves, starts, ends, q),
    }
}

} // verus!
