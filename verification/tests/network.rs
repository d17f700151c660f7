use schattenweg_core::model::{Edge, Node, PlaceKind};
use schattenweg_core::network::{directed_edges, NetworkBuilder, Segment};

fn bits(x: f64) -> u64 {
    x.to_bits()
}

#[test]
fn builds_walkable_network_and_names() {
    let mut b = NetworkBuilder::new();
    // Pass 1: ways.
    b.add_way(&[("highway", "residential"), ("name", "Kameraweg")], vec![1, 2, 3]);
    b.add_way(&[("highway", "residential"), ("name", "Kameraweg")], vec![3, 4]);
    b.add_way(&[("highway", "motorway"), ("name", "Autobahn")], vec![10, 11]);
    b.add_way(&[("highway", "footway")], vec![4, 5]);
    b.add_way(&[("building", "yes"), ("name", "Haus")], vec![20, 21]);
    // Pass 2: nodes (5 is missing from the extract).
    for id in [1i64, 2, 3, 4, 10, 11, 20] {
        b.add_node(id, bits(52.0 + id as f64 * 0.001), bits(13.0), &[]);
    }
    b.add_node(99, bits(52.5), bits(13.5), &[("name", "Mitte"), ("place", "quarter")]);
    b.add_node(98, bits(52.5), bits(13.5), &[("name", "Cafe"), ("amenity", "cafe")]);
    let net = b.finish();

    // Nodes: the needed ids that were resolved (1, 2, 3, 4 from walkable ways,
    // 10 as the anchor of the non-walkable named motorway), nothing else.
    let mut ids: Vec<u64> = net.nodes.iter().map(|n| n.id).collect();
    ids.sort();
    assert_eq!(ids, vec![1, 2, 3, 4, 10]);
    let n3 = net.nodes.iter().find(|n| n.id == 3).unwrap();
    assert_eq!(n3.lat_bits, bits(52.003));

    // Segments: consecutive resolved pairs of walkable ways; 4-5 is skipped.
    let pairs: Vec<(i64, i64)> = net.segments.iter().map(|s| (s.from, s.to)).collect();
    assert_eq!(pairs, vec![(1, 2), (2, 3), (3, 4)]);
    assert_eq!(net.segments[0].to_lat_bits, bits(52.002));

    // Places: the quarter, then one street per name (first way wins).
    let names: Vec<(&str, PlaceKind)> = net.places.iter().map(|p| (p.name.as_str(), p.kind)).collect();
    assert_eq!(names, vec![("Mitte", PlaceKind::Locality), ("Kameraweg", PlaceKind::Street), ("Autobahn", PlaceKind::Street)]);
    assert_eq!(net.places[1].lat_bits, bits(52.001));
}

#[test]
fn last_coordinate_wins_and_unneeded_nodes_are_ignored() {
    let mut b = NetworkBuilder::new();
    b.add_way(&[("highway", "path")], vec![7, 8]);
    b.add_node(7, 1, 1, &[]);
    b.add_node(7, 2, 2, &[]);
    b.add_node(8, 3, 3, &[]);
    b.add_node(9, 4, 4, &[]);
    let net = b.finish();
    let mut nodes = net.nodes.clone();
    nodes.sort_by_key(|n| n.id);
    assert_eq!(nodes, vec![Node { id: 7, lat_bits: 2, lon_bits: 2 }, Node { id: 8, lat_bits: 3, lon_bits: 3 }]);
    assert_eq!(net.segments, vec![Segment { from: 7, to: 8, from_lat_bits: 2, from_lon_bits: 2, to_lat_bits: 3, to_lon_bits: 3 }]);
    assert!(net.places.is_empty());
}

#[test]
fn street_without_nodes_or_coordinate_is_not_a_place() {
    let mut b = NetworkBuilder::new();
    b.add_way(&[("highway", "service"), ("name", "Leer")], vec![]);
    b.add_way(&[("highway", "service"), ("name", "Fern")], vec![50]);
    let net = b.finish();
    assert!(net.places.is_empty());
    assert!(net.nodes.is_empty());
}

#[test]
fn edges_in_both_directions() {
    let segs = vec![
        Segment { from: 1, to: 2, from_lat_bits: 0, from_lon_bits: 0, to_lat_bits: 0, to_lon_bits: 0 },
        Segment { from: -3, to: 4, from_lat_bits: 0, from_lon_bits: 0, to_lat_bits: 0, to_lon_bits: 0 },
    ];
    let edges = directed_edges(&segs, &vec![bits(100.0), bits(5.5)]);
    assert_eq!(
        edges,
        vec![
            Edge { from: 1, to: 2, length_bits: bits(100.0), exposure_bits: 0 },
            Edge { from: 2, to: 1, length_bits: bits(100.0), exposure_bits: 0 },
            Edge { from: (-3i64) as u64, to: 4, length_bits: bits(5.5), exposure_bits: 0 },
            Edge { from: 4, to: (-3i64) as u64, length_bits: bits(5.5), exposure_bits: 0 },
        ]
    );
    assert_eq!(f64::from_bits(edges[0].exposure_bits), 0.0);
}
