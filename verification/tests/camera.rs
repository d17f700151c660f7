use schattenweg_core::camera::{camera_from_tags, whole_to_bits};
use schattenweg_core::model::CameraKind;

#[test]
fn parses_fixed_directional_camera() {
    let tags = [
        ("man_made", "surveillance"),
        ("surveillance:type", "camera"),
        ("camera:type", "fixed"),
        ("camera:direction", "90"),
    ];
    // "90" reads as a number; its parse is handed in.
    let cam = camera_from_tags(42, 52.52f64.to_bits(), 13.40f64.to_bits(), &tags, Some(90.0f64.to_bits())).unwrap();
    assert_eq!(cam.kind, CameraKind::Fixed);
    assert_eq!(cam.direction_bits.map(f64::from_bits), Some(90.0));
}

#[test]
fn drops_non_camera_surveillance() {
    let tags = [("man_made", "surveillance"), ("surveillance:type", "guard")];
    assert!(camera_from_tags(1, 0, 0, &tags, None).is_none());
}

#[test]
fn compass_point_direction() {
    let tags = [("man_made", "surveillance"), ("camera:direction", "SW")];
    let cam = camera_from_tags(1, 0, 0, &tags, None).unwrap();
    assert_eq!(cam.direction_bits.map(f64::from_bits), Some(225.0));
}

// ---------------------------------------------------------------------------

#[test]
fn whole_numbers_encode_as_binary64() {
    for n in [0u32, 1, 2, 3, 20, 25, 30, 45, 90, 135, 180, 225, 270, 315, 1000, 65535, u32::MAX] {
        assert_eq!(whole_to_bits(n), (n as f64).to_bits(), "n = {n}");
    }
}

#[test]
fn camera_defaults_and_fields() {
    let lat = 52.5f64.to_bits();
    let lon = 13.4f64.to_bits();
    let cam = camera_from_tags(-7, lat, lon, &[("man_made", "surveillance"), ("camera:type", "panning")], None).unwrap();
    assert_eq!(cam.osm_id, -7);
    assert_eq!((cam.lat_bits, cam.lon_bits), (lat, lon));
    assert_eq!(cam.kind, CameraKind::Panning);
    assert_eq!(cam.direction_bits, None);
    assert_eq!(f64::from_bits(cam.range_bits), 30.0);
    assert_eq!(f64::from_bits(cam.half_fov_bits), 30.0);

    let dome = camera_from_tags(1, lat, lon, &[("man_made", "surveillance"), ("camera:type", "dome")], None).unwrap();
    assert_eq!(f64::from_bits(dome.range_bits), 20.0);
    let fixed = camera_from_tags(1, lat, lon, &[("man_made", "surveillance"), ("camera:type", "fixed")], None).unwrap();
    assert_eq!(f64::from_bits(fixed.range_bits), 25.0);
}

#[test]
fn direction_sources() {
    let base = [("man_made", "surveillance"), ("camera:direction", " ne ")];
    // A compass point, trimmed and case-folded.
    let cam = camera_from_tags(1, 0, 0, &base, None).unwrap();
    assert_eq!(cam.direction_bits.map(f64::from_bits), Some(45.0));
    // A value that reads as a number takes that number.
    let cam = camera_from_tags(1, 0, 0, &base, Some(12.5f64.to_bits())).unwrap();
    assert_eq!(cam.direction_bits.map(f64::from_bits), Some(12.5));
    // Neither a number nor a compass point: no direction.
    let cam = camera_from_tags(1, 0, 0, &[("man_made", "surveillance"), ("camera:direction", "left")], None).unwrap();
    assert_eq!(cam.direction_bits, None);
    // No tag: no direction, whatever was handed in.
    let cam = camera_from_tags(1, 0, 0, &[("man_made", "surveillance")], Some(1)).unwrap();
    assert_eq!(cam.direction_bits, None);
}
