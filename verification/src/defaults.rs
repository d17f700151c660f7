//! Default modelling parameters keyed off the camera class. They are
//! deliberately conservative starting points: whole metres and degrees.
use crate::model::CameraKind;
use vstd::prelude::*;

verus! {

/// The assumed effective range of a camera class, in metres.
pub open spec fn spec_range_m(kind: CameraKind) -> u32 {
    match kind {
        CameraKind::Fixed => 25,
        CameraKind::Dome => 20,
        CameraKind::Panning => 30,
        CameraKind::Unknown => 20,
    }
}

/// Effective range in metres by camera class.
pub fn range_m(kind: CameraKind) -> (r: u32)
    ensures
        r == spec_range_m(kind),
{
    match kind {
        CameraKind::Fixed => 25,
        CameraKind::Dome => 20,
        CameraKind::Panning => 30,
        CameraKind::Unknown => 20,
    }
}

/// Half field-of-view in degrees for directional cameras: a 60° cone for
/// every class.
pub fn half_fov_deg(kind: CameraKind) -> (r: u32)
    ensures
        r == 30,
{
    30
}

} // verus!
