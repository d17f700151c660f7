use vstd::prelude::*;

verus! {

/// Errors surfaced to the app layer.
#[derive(Debug, Clone, PartialEq, Eq)]
pub enum RouteError {
    /// The map data could not be loaded; `reason` says why.
    LoadFailed { reason: String },
    /// No graph node lies near the given start or end point.
    NoNearbyNode,
    /// No route exists between the given points.
    Unreachable,
}

/// Errors from reading or decoding an OSM extract.
#[derive(Debug, Clone, PartialEq, Eq)]
pub enum OsmError {
    /// The extract could not be read; the text says why.
    Read(String),
}

} // verus!
