//! Schattenweg core: the verified logic behind a privacy-first walking router
//! that steers around mapped surveillance cameras.
//!
//! * [`model`]: the flat records (nodes, edges, cameras, places) every other
//!   part exchanges. Geographic and metric quantities are IEEE-754 binary64
//!   values carried as their bit patterns, so this crate never does floating
//!   point arithmetic; it only moves such values around and decides on the
//!   integer, textual and structural parts of the data.
//! * [`cache`]: the on-disk format of a scored graph, with its encoder, its
//!   validating decoder and the round-trip laws between them.
//! * [`tags`]: the OpenStreetMap tag rules (walkability, camera class,
//!   searchable places, compass bearings).
//! * [`places`]: the offline place search (folding, de-duplication, ranking).
//! * [`network`]: assembly of the walkable graph from streamed OSM elements.
//! * [`graph`]: adjacency of the routable graph and path reconstruction.
//! * [`error`]: the errors surfaced to the app layer.

pub mod cache;
pub mod camera;
pub mod defaults;
pub mod error;
pub mod graph;
pub mod model;
pub mod network;
pub mod places;
pub mod sort;
pub mod tags;
