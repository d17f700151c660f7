use schattenweg_core::defaults::{half_fov_deg, range_m};
use schattenweg_core::model::{CameraKind, PlaceKind};
use schattenweg_core::tags::{camera_kind_from_tags, compass_point_deg, foot_accessible, get_tag, place_from_tags};

#[test]
fn footways_walkable_motorways_not() {
    assert!(foot_accessible(&[("highway", "footway")]));
    assert!(foot_accessible(&[("highway", "residential")]));
    assert!(!foot_accessible(&[("highway", "motorway")]));
    assert!(!foot_accessible(&[("highway", "trunk")]));
}

#[test]
fn foot_and_access_tags_respected() {
    assert!(!foot_accessible(&[("highway", "path"), ("foot", "no")]));
    assert!(!foot_accessible(&[("highway", "service"), ("access", "private")]));
    // Explicit foot permission overrides a restrictive access tag.
    assert!(foot_accessible(&[("highway", "service"), ("access", "private"), ("foot", "yes"),]));
    // Cycleways only when opened to pedestrians.
    assert!(!foot_accessible(&[("highway", "cycleway")]));
    assert!(foot_accessible(&[("highway", "cycleway"), ("foot", "yes")]));
}

// ---------------------------------------------------------------------------

#[test]
fn walkability_edge_cases() {
    assert!(!foot_accessible(&[]));
    assert!(!foot_accessible(&[("foot", "yes")]));
    assert!(!foot_accessible(&[("highway", "footway"), ("foot", "use_sidepath")]));
    assert!(!foot_accessible(&[("highway", "footway"), ("foot", "private"), ("access", "yes")]));
    assert!(!foot_accessible(&[("highway", "track"), ("access", "no")]));
    assert!(foot_accessible(&[("highway", "track"), ("access", "no"), ("foot", "designated")]));
    assert!(foot_accessible(&[("highway", "cycleway"), ("foot", "permissive")]));
    assert!(foot_accessible(&[("highway", "steps"), ("access", "destination")]));
    // The first occurrence of a key is the one read.
    assert!(foot_accessible(&[("highway", "path"), ("foot", "yes"), ("foot", "no")]));
    assert!(!foot_accessible(&[("highway", "path"), ("foot", "no"), ("foot", "yes")]));
}

#[test]
fn tag_lookup_takes_the_first_match() {
    let tags = [("a", "1"), ("b", "2"), ("a", "3")];
    assert_eq!(get_tag(&tags, "a"), Some("1"));
    assert_eq!(get_tag(&tags, "b"), Some("2"));
    assert_eq!(get_tag(&tags, "c"), None);
}

#[test]
fn camera_classes() {
    assert_eq!(camera_kind_from_tags(&[("man_made", "surveillance")]), Some(CameraKind::Unknown));
    assert_eq!(
        camera_kind_from_tags(&[("man_made", "surveillance"), ("surveillance:type", "camera"), ("camera:type", "fixed"), ("camera:direction", "90")]),
        Some(CameraKind::Fixed)
    );
    assert_eq!(camera_kind_from_tags(&[("man_made", "surveillance"), ("camera:type", "dome")]), Some(CameraKind::Dome));
    assert_eq!(camera_kind_from_tags(&[("man_made", "surveillance"), ("camera:type", "panning")]), Some(CameraKind::Panning));
    assert_eq!(camera_kind_from_tags(&[("man_made", "surveillance"), ("camera:type", "bullet")]), Some(CameraKind::Unknown));
    assert_eq!(camera_kind_from_tags(&[("man_made", "surveillance"), ("surveillance:type", "ALPR")]), None);
    assert_eq!(camera_kind_from_tags(&[("camera:type", "dome")]), None);
    assert_eq!(camera_kind_from_tags(&[("man_made", "tower")]), None);
}

#[test]
fn compass_points_trimmed_and_case_folded() {
    assert_eq!(compass_point_deg("N"), Some(0));
    assert_eq!(compass_point_deg(" ne "), Some(45));
    assert_eq!(compass_point_deg("e"), Some(90));
    assert_eq!(compass_point_deg("Se"), Some(135));
    assert_eq!(compass_point_deg("S"), Some(180));
    assert_eq!(compass_point_deg("w"), Some(270));
    assert_eq!(compass_point_deg("\tNW\n"), Some(315));
    assert_eq!(compass_point_deg("NNE"), None);
    assert_eq!(compass_point_deg(""), None);
}

#[test]
fn default_parameters() {
    assert_eq!(range_m(CameraKind::Fixed), 25);
    assert_eq!(range_m(CameraKind::Dome), 20);
    assert_eq!(range_m(CameraKind::Panning), 30);
    assert_eq!(range_m(CameraKind::Unknown), 20);
    assert_eq!(half_fov_deg(CameraKind::Fixed), 30);
}

#[test]
fn places_from_tags() {
    let lat = 52.52f64.to_bits();
    let lon = 13.40f64.to_bits();
    let p = place_from_tags(lat, lon, &[("name", "Mitte"), ("place", "quarter")]).unwrap();
    assert_eq!(p.name, "Mitte");
    assert_eq!(p.kind, PlaceKind::Locality);
    assert_eq!((p.lat_bits, p.lon_bits), (lat, lon));
    let s = place_from_tags(lat, lon, &[("railway", "halt"), ("name", "Hbf")]).unwrap();
    assert_eq!(s.kind, PlaceKind::Station);
    let s = place_from_tags(lat, lon, &[("public_transport", "station"), ("name", "Bahnhof")]).unwrap();
    assert_eq!(s.kind, PlaceKind::Station);
    // A locality tag wins over a station tag.
    let l = place_from_tags(lat, lon, &[("name", "X"), ("place", "village"), ("railway", "station")]).unwrap();
    assert_eq!(l.kind, PlaceKind::Locality);
    assert!(place_from_tags(lat, lon, &[("name", "Cafe"), ("amenity", "cafe")]).is_none());
    assert!(place_from_tags(lat, lon, &[("place", "city")]).is_none());
    assert!(place_from_tags(lat, lon, &[("name", "Farm"), ("place", "farm")]).is_none());
}

#[test]
fn compass_point_trimmed_of_unicode_white_space() {
    assert_eq!(compass_point_deg("\u{3000}sw\u{a0}"), Some(225));
    assert_eq!(compass_point_deg("\u{200b}SW"), None); // zero-width space is not white space
}
