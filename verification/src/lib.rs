//! Planning library for hiking-trail transit itineraries.
//!
//! The crate turns raw trail-stage polylines and a transit stop-area
//! catalogue into a geometric graph, simplifies that graph while preserving
//! shortest-path distances, extracts walk-only path candidates between stop
//! areas, and ranks end-to-end itineraries that combine those candidates
//! with transit journeys.

pub mod builder;
pub mod codec;
pub mod extract;
pub mod geom;
pub mod graph;
pub mod journeys;
pub mod labels;
pub mod ranker;
pub mod records;
pub mod shortest;
pub mod simplify;
pub mod text;
pub mod walks;
