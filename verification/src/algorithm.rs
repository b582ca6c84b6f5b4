//! The three interchangeable search strategies.

use crate::best_first::{astar, dijkstra};
use crate::fringe::fringe;
use crate::graph::{is_answer, SearchSpace};
use vstd::prelude::*;

verus! {

/// A search strategy. All three find a route of the same, least cost.
#[derive(Clone, Copy, Debug, PartialEq, Eq, Structural)]
pub enum Algorithm {
    /// Uniform-cost search: cells are finished in order of accumulated cost.
    UniformCost,
    /// Uniform-cost search guided by an estimate of the remaining cost.
    HeuristicGuided,
    /// Fringe search: depth-first passes under a rising cost threshold.
    Fringe,
}

/// What `str::to_lowercase` makes of a text.
pub uninterp spec fn lowercase_of(text: Seq<char>) -> Seq<char>;

/// Calls `str::to_lowercase`. The result is the lowercase form of `text` as the
/// standard library defines it, which depends on the text alone; nothing more is
/// claimed of it.
#[verifier::external_body]
fn lowercase(text: &str) -> (lower: String)
    ensures
        lower@ == lowercase_of(text@),
{
    text.to_lowercase()
}

impl Algorithm {
    /// The algorithm that a lowercase name names: `astar`, `dijkstra` or `fringe`.
    pub open spec fn named(lower: Seq<char>) -> Option<Algorithm> {
        if lower == "astar"@ {
            Some(Algorithm::HeuristicGuided)
        } else if lower == "dijkstra"@ {
            Some(Algorithm::UniformCost)
        } else if lower == "fringe"@ {
            Some(Algorithm::Fringe)
        } else {
            None
        }
    }

    /// The algorithm that the lowercase name `lower` names, if it names one.
    pub fn from_lowercase(lower: &String) -> (a: Option<Algorithm>)
        ensures
            a == Algorithm::named(lower@),
    {
        let astar = "astar".to_owned();
        let dijkstra = "dijkstra".to_owned();
        let fringe = "fringe".to_owned();
        if *lower == astar {
            Some(Algorithm::HeuristicGuided)
        } else if *lower == dijkstra {
            Some(Algorithm::UniformCost)
        } else if *lower == fringe {
            Some(Algorithm::Fringe)
        } else {
            None
        }
    }

    /// The algorithm that `name` names, whatever the case of its letters.
    pub fn from_name(name: &str) -> (a: Option<Algorithm>)
        ensures
            a == Algorithm::named(lowercase_of(name@)),
    {
        let lower = lowercase(name);
        Algorithm::from_lowercase(&lower)
    }
}

/// Runs `algorithm` over `s`.
pub fn search<S: SearchSpace>(s: &S, algorithm: Algorithm) -> (out: Option<(Vec<usize>, u64)>)
    requires
        s.wf(),
    ensures
        is_answer(s, out),
{
    match algorithm {
        Algorithm::UniformCost => dijkstra(s),
        Algorithm::HeuristicGuided => astar(s),
        Algorithm::Fringe => fringe(s),
    }
}

} // verus!
