//! The flat records the router is assembled from.
//!
//! Coordinates, lengths, angles and exposure fractions are binary64 values in
//! the app; here each one is held as the `u64` bit pattern of that value
//! (`f64::to_bits`), which is exactly what the cache stores and what the
//! structural logic of this crate needs to carry.
use vstd::prelude::*;

verus! {

/// The physical mounting / movement class of a camera, derived from OSM tags
/// (`camera:type`). It decides whether coverage is a directional cone or an
/// omnidirectional disc.
#[derive(Debug, Clone, Copy, PartialEq, Eq, Structural)]
pub enum CameraKind {
    /// Fixed camera pointing one way: a cone when a direction is known.
    Fixed,
    /// Dome camera: treated as omnidirectional (disc).
    Dome,
    /// Panning / PTZ camera: can point anywhere over time, so disc.
    Panning,
    /// Unknown class: disc, the conservative (larger) coverage.
    Unknown,
}

/// What kind of thing a search result is, so the UI can say.
#[derive(Debug, Clone, Copy, PartialEq, Eq, Structural)]
pub enum PlaceKind {
    /// A named road.
    Street,
    /// A city, borough, suburb, quarter or neighbourhood.
    Locality,
    /// A railway station or halt.
    Station,
}

/// A node of the routing graph: a stable id and its coordinate.
#[derive(Debug, Clone, Copy, PartialEq, Eq, Structural)]
pub struct Node {
    pub id: u64,
    /// Latitude in degrees, as binary64 bits.
    pub lat_bits: u64,
    /// Longitude in degrees, as binary64 bits.
    pub lon_bits: u64,
}

/// A directed edge between two node ids.
#[derive(Debug, Clone, Copy, PartialEq, Eq, Structural)]
pub struct Edge {
    pub from: u64,
    pub to: u64,
    /// Segment length in metres, as binary64 bits.
    pub length_bits: u64,
    /// Fraction of the segment under surveillance (0..1), as binary64 bits.
    pub exposure_bits: u64,
}

/// A surveillance camera with everything the exposure model needs.
#[derive(Debug, Clone, Copy, PartialEq, Eq, Structural)]
pub struct Camera {
    /// OSM node id, kept for provenance and de-duplication.
    pub osm_id: i64,
    pub lat_bits: u64,
    pub lon_bits: u64,
    pub kind: CameraKind,
    /// Compass bearing the camera faces (degrees, binary64 bits), if known.
    pub direction_bits: Option<u64>,
    /// Half-angle of the cone in degrees, as binary64 bits.
    pub half_fov_bits: u64,
    /// Assumed effective range in metres, as binary64 bits.
    pub range_bits: u64,
}

/// One searchable name and where it is.
#[derive(Debug, Clone)]
pub struct Place {
    pub name: String,
    pub kind: PlaceKind,
    pub lat_bits: u64,
    pub lon_bits: u64,
}

/// The mathematical value of a [`Place`]: its name as characters.
#[verifier::ext_equal]
pub struct PlaceView {
    pub name: Seq<char>,
    pub kind: PlaceKind,
    pub lat_bits: u64,
    pub lon_bits: u64,
}

impl View for Place {
    type V = PlaceView;

    open spec fn view(&self) -> PlaceView {
        PlaceView { name: self.name@, kind: self.kind, lat_bits: self.lat_bits, lon_bits: self.lon_bits }
    }
}

/// The values of a sequence of records.
pub open spec fn views<T: View>(s: Seq<T>) -> Seq<T::V> {
    s.map_values(|x: T| x@)
}

impl View for Node {
    type V = Node;

    open spec fn view(&self) -> Node {
        *self
    }
}

impl View for Edge {
    type V = Edge;

    open spec fn view(&self) -> Edge {
        *self
    }
}

impl View for Camera {
    type V = Camera;

    open spec fn view(&self) -> Camera {
        *self
    }
}

} // verus!
