//! Minimum-cost routes over raster cost fields and layered cost volumes.
//!
//! A cost field is a rectangle of byte costs; a cost volume is a stack of such
//! rectangles. A route pays the cost of every cell it stands on, the first
//! included, and may not stand on a cell that carries the largest cost, 255. Over
//! a field a route moves freely to any of the eight cells around it; over a volume
//! it advances one layer per move along a forced axis and at most `reach` cells
//! sideways.
//!
//! * [`field`] holds the cost arrays and the positions that address them.
//! * [`route`] says what a route is and what it costs.
//! * [`search`] holds the two searches, [`search::search_2d`] and
//!   [`search::search_volume`]; [`entry`] offers them to callers that name the
//!   algorithm by a word or have endpoints that may be missing.
//! * [`graph`] is the search problem as the engines see it; [`best_first`] and
//!   [`fringe`] are the engines, [`frontier`] and [`labels`] what they keep.
//! * [`lattice`] makes a search problem of a cost array.
//! * [`laws`] states what the contracts of the searches imply.
//! * [`report`] and [`overlay`] turn a route into rows of points and into marks on
//!   an image.

pub mod algorithm;
pub mod best_first;
pub mod entry;
pub mod field;
pub mod fringe;
pub mod frontier;
pub mod graph;
pub mod labels;
pub mod lattice;
pub mod laws;
pub mod overlay;
pub mod report;
pub mod route;
pub mod search;
