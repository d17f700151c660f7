use schattenweg_core::cache;
use schattenweg_core::cache::{fingerprint, read, CacheError, ErrorKind, Parts};
use schattenweg_core::model::{Camera, CameraKind, Edge, Node, Place, PlaceKind};

fn b(x: f64) -> u64 {
    x.to_bits()
}

fn sample() -> Parts {
    Parts {
        nodes: vec![
            Node { id: 1, lat_bits: b(52.5), lon_bits: b(13.4) },
            Node { id: 2, lat_bits: b(52.51), lon_bits: b(13.41) },
        ],
        edges: vec![Edge { from: 1, to: 2, length_bits: b(123.4), exposure_bits: b(0.42) }],
        cameras: vec![
            Camera {
                osm_id: -7,
                lat_bits: b(52.505),
                lon_bits: b(13.405),
                kind: CameraKind::Fixed,
                direction_bits: Some(b(90.0)),
                half_fov_bits: b(30.0),
                range_bits: b(25.0),
            },
            Camera {
                osm_id: 9,
                lat_bits: b(52.506),
                lon_bits: b(13.406),
                kind: CameraKind::Dome,
                direction_bits: None,
                half_fov_bits: b(0.0),
                range_bits: b(15.0),
            },
        ],
        places: vec![Place {
            name: "Alexanderplatz".to_string(),
            kind: PlaceKind::Locality,
            lat_bits: b(52.521),
            lon_bits: b(13.413),
        }],
    }
}

fn assert_round_trips(parts: &Parts) {
    let mut buf = Vec::new();
    cache::write(&mut buf, parts, 0xdead_beef);
    let back = read(&buf[..], 0xdead_beef).unwrap();

    assert_eq!(back.nodes.len(), parts.nodes.len());
    for (a, b) in back.nodes.iter().zip(&parts.nodes) {
        assert_eq!((a.id, a.lat_bits, a.lon_bits), (b.id, b.lat_bits, b.lon_bits));
    }
    assert_eq!(back.edges.len(), parts.edges.len());
    for (a, b) in back.edges.iter().zip(&parts.edges) {
        assert_eq!(
            (a.from, a.to, a.length_bits, a.exposure_bits),
            (b.from, b.to, b.length_bits, b.exposure_bits)
        );
    }
    assert_eq!(back.cameras.len(), parts.cameras.len());
    for (a, b) in back.cameras.iter().zip(&parts.cameras) {
        assert_eq!(a.osm_id, b.osm_id);
        assert_eq!(a.kind, b.kind);
        assert_eq!(a.direction_bits, b.direction_bits);
        assert_eq!(a.half_fov_bits, b.half_fov_bits);
        assert_eq!(a.range_bits, b.range_bits);
    }
    assert_eq!(back.places.len(), parts.places.len());
    for (a, b) in back.places.iter().zip(&parts.places) {
        assert_eq!(a.name, b.name);
        assert_eq!(a.kind, b.kind);
    }
}

#[test]
fn round_trips_all_fields() {
    assert_round_trips(&sample());
}

#[test]
fn round_trips_when_empty() {
    assert_round_trips(&Parts { nodes: vec![], edges: vec![], cameras: vec![], places: vec![] });
}

#[test]
fn rejects_a_different_fingerprint() {
    let mut buf = Vec::new();
    cache::write(&mut buf, &sample(), 1);
    let err = read(&buf[..], 2).unwrap_err();
    assert_eq!(err.kind(), ErrorKind::InvalidData);
}

#[test]
fn rejects_a_bad_magic() {
    let mut buf = Vec::new();
    cache::write(&mut buf, &sample(), 1);
    buf[0] = b'X';
    assert!(read(&buf[..], 1).is_err());
}

#[test]
fn rejects_truncation() {
    let mut buf = Vec::new();
    cache::write(&mut buf, &sample(), 1);
    buf.truncate(buf.len() / 2);
    assert!(read(&buf[..], 1).is_err());
}

#[test]
fn fingerprint_reacts_to_len_and_mtime() {
    let base = fingerprint(100, 1000);
    assert_ne!(base, fingerprint(101, 1000));
    assert_ne!(base, fingerprint(100, 1001));
}

// ---------------------------------------------------------------------------

#[test]
fn header_layout_is_magic_version_fingerprint() {
    let mut buf = Vec::new();
    cache::write(&mut buf, &Parts { nodes: vec![], edges: vec![], cameras: vec![], places: vec![] }, 0x0102_0304_0506_0708);
    assert_eq!(&buf[0..4], b"SWGC");
    assert_eq!(&buf[4..8], &[1, 0, 0, 0]);
    assert_eq!(&buf[8..16], &[8, 7, 6, 5, 4, 3, 2, 1]);
    // Four empty sections: four zero counts.
    assert_eq!(buf.len(), 16 + 4 * 8);
    assert!(buf[16..].iter().all(|&x| x == 0));
}

#[test]
fn write_appends_to_existing_bytes() {
    let mut buf = vec![0xAA, 0xBB];
    cache::write(&mut buf, &sample(), 5);
    assert_eq!(&buf[0..2], &[0xAA, 0xBB]);
    assert!(read(&buf[..], 5).is_err());
    assert_eq!(read(&buf[2..], 5).unwrap().nodes.len(), 2);
}

#[test]
fn round_trip_keeps_exact_values() {
    let parts = sample();
    let mut buf = Vec::new();
    cache::write(&mut buf, &parts, 42);
    // Trailing bytes are not looked at.
    buf.extend_from_slice(&[1, 2, 3]);
    let back = read(&buf, 42).unwrap();
    assert_eq!(back.nodes, parts.nodes);
    assert_eq!(back.edges, parts.edges);
    assert_eq!(back.cameras, parts.cameras);
    assert_eq!(back.places[0].name, "Alexanderplatz");
    assert_eq!(back.places[0].lat_bits, parts.places[0].lat_bits);
}

#[test]
fn unicode_names_round_trip() {
    let mut parts = sample();
    parts.places[0].name = "Müllerstraße".to_string();
    let mut buf = Vec::new();
    cache::write(&mut buf, &parts, 7);
    assert_eq!(read(&buf, 7).unwrap().places[0].name, "Müllerstraße");
}

#[test]
fn each_error_is_reported() {
    let empty = Parts { nodes: vec![], edges: vec![], cameras: vec![], places: vec![] };
    let mut good = Vec::new();
    cache::write(&mut good, &empty, 9);

    assert_eq!(read(&good[..3], 9).unwrap_err(), CacheError::Truncated);
    assert_eq!(read(&good[..3], 9).unwrap_err().kind(), ErrorKind::InvalidData);

    let mut bad = good.clone();
    bad[1] = 0;
    assert_eq!(read(&bad, 9).unwrap_err(), CacheError::NotACacheFile);

    let mut bad = good.clone();
    bad[4] = 2;
    assert_eq!(read(&bad, 9).unwrap_err(), CacheError::VersionMismatch);

    assert_eq!(read(&good, 10).unwrap_err(), CacheError::Stale);

    // One camera with an invalid kind tag.
    let mut cam = sample();
    cam.nodes.clear();
    cam.edges.clear();
    cam.places.clear();
    cam.cameras.truncate(1);
    let mut buf = Vec::new();
    cache::write(&mut buf, &cam, 9);
    let kind_at = 16 + 8 + 8 + 8 + 24;
    let mut bad = buf.clone();
    bad[kind_at] = 7;
    assert_eq!(read(&bad, 9).unwrap_err(), CacheError::InvalidCameraKind);
    let mut bad = buf.clone();
    bad[kind_at + 1] = 5;
    assert_eq!(read(&bad, 9).unwrap_err(), CacheError::InvalidDirectionTag);

    // One place: a bad kind tag, then a name that is not UTF-8.
    let mut pl = sample();
    pl.nodes.clear();
    pl.edges.clear();
    pl.cameras.clear();
    let mut buf = Vec::new();
    cache::write(&mut buf, &pl, 9);
    let name_at = 16 + 8 + 8 + 8 + 8 + 4;
    let kind_at = name_at + "Alexanderplatz".len();
    let mut bad = buf.clone();
    bad[kind_at] = 3;
    assert_eq!(read(&bad, 9).unwrap_err(), CacheError::InvalidPlaceKind);
    let mut bad = buf.clone();
    bad[name_at] = 0xFF;
    assert_eq!(read(&bad, 9).unwrap_err(), CacheError::NameNotUtf8);
    assert_eq!(read(&bad, 9).unwrap_err().kind(), ErrorKind::InvalidData);
}

#[test]
fn every_prefix_is_refused() {
    let mut buf = Vec::new();
    cache::write(&mut buf, &sample(), 3);
    for k in 0..buf.len() {
        assert!(read(&buf[..k], 3).is_err(), "prefix of {k} bytes accepted");
    }
    assert!(read(&buf, 3).is_ok());
}

#[test]
fn fingerprint_has_a_fixed_value() {
    // The splitmix-style mix of len ^ rotl(mtime, 32).
    fn reference(len: u64, mtime: i64) -> u64 {
        let mut x = len ^ (mtime as u64).rotate_left(32);
        x = (x ^ (x >> 30)).wrapping_mul(0xbf58_476d_1ce4_e5b9);
        x = (x ^ (x >> 27)).wrapping_mul(0x94d0_49bb_1331_11eb);
        x ^ (x >> 31)
    }
    assert_eq!(fingerprint(0, 0), 0);
    assert_eq!(fingerprint(100, 1000), reference(100, 1000));
    assert_eq!(fingerprint(u64::MAX, -1), reference(u64::MAX, -1));
}

#[test]
fn error_messages() {
    assert_eq!(CacheError::NotACacheFile.message(), "not a Schattenweg cache file");
    assert_eq!(CacheError::VersionMismatch.message(), "cache version mismatch");
    assert_eq!(CacheError::Stale.message(), "cache is stale (source extract changed)");
    assert_eq!(CacheError::InvalidCameraKind.message(), "invalid camera kind tag");
    assert_eq!(CacheError::InvalidDirectionTag.message(), "invalid camera direction tag");
    assert_eq!(CacheError::InvalidPlaceKind.message(), "invalid place kind tag");
    assert_eq!(CacheError::NameNotUtf8.message(), "place name is not UTF-8");
    assert_eq!(CacheError::Truncated.message(), "failed to fill whole buffer");
}
