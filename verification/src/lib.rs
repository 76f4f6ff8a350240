//! Coalesce engine of a tiled geocoder's grid-store search layer.
//!
//! The engine receives a stack of per-phrase matches, each resolved against
//! an inverted index over map tiles at some zoom level, and fuses them into
//! a ranked, de-duplicated, pruned list of contexts. A Z-curve bounding-box
//! filter restricts grid candidates to a rectangle via binary search over
//! the Morton interleave of their coordinates.

pub mod common;
pub mod spatial;
pub mod coalesce;
