use schattenweg_core::graph::{reconstruct, Graph};
use schattenweg_core::model::{Edge, Node};

fn toy_graph() -> Graph {
    let nodes = vec![
        Node { id: 1, lat_bits: 0f64.to_bits(), lon_bits: 0f64.to_bits() },
        Node { id: 2, lat_bits: 0f64.to_bits(), lon_bits: 0.001f64.to_bits() },
        Node { id: 3, lat_bits: 0f64.to_bits(), lon_bits: 0.002f64.to_bits() },
    ];
    let e = |from, to, len: f64, exp: f64| Edge { from, to, length_bits: len.to_bits(), exposure_bits: exp.to_bits() };
    let edges = vec![e(1, 2, 100.0, 0.0), e(2, 3, 100.0, 1.0), e(1, 3, 250.0, 0.0), e(9, 1, 1.0, 0.0)];
    Graph::new(nodes, edges)
}

#[test]
fn adjacency_follows_from_ids() {
    let g = toy_graph();
    assert_eq!(g.node_count(), 3);
    assert_eq!(g.index_of_id(3), Some(2));
    assert_eq!(g.index_of_id(9), None);
    let from1: Vec<u64> = g.edges_from(0).iter().map(|e| e.to).collect();
    assert_eq!(from1, vec![2, 3]);
    assert_eq!(g.edges_from(1).len(), 1);
    // The edge from the unknown id 9 leaves no node.
    assert!(g.edges_from(2).is_empty());
    assert_eq!(g.node(1).id, 2);
}

#[test]
fn edge_between_finds_the_first_edge() {
    let g = toy_graph();
    assert_eq!(f64::from_bits(g.edge_between(0, 2).unwrap().length_bits), 250.0);
    assert_eq!(g.edge_between(1, 2).unwrap().to, 3);
    assert!(g.edge_between(2, 0).is_none());
}

#[test]
fn reconstruct_follows_predecessors() {
    // 0 <- 1 <- 3 and 2 unreached.
    let came_from = vec![usize::MAX, 0, usize::MAX, 1];
    assert_eq!(reconstruct(&came_from, 0, 3), Some(vec![0, 1, 3]));
    assert_eq!(reconstruct(&came_from, 0, 0), Some(vec![0]));
    assert_eq!(reconstruct(&came_from, 1, 3), Some(vec![1, 3]));
    // A link that leaves the indices, and a cycle that never meets start.
    assert_eq!(reconstruct(&came_from, 0, 2), None);
    assert_eq!(reconstruct(&vec![1, 0], 5, 0), None);
    let g = toy_graph();
    assert_eq!(g.node_ids(&vec![0, 1, 2]), vec![1, 2, 3]);
}

#[test]
fn duplicate_ids_index_the_last_node() {
    let nodes = vec![
        Node { id: 5, lat_bits: 1, lon_bits: 1 },
        Node { id: 5, lat_bits: 2, lon_bits: 2 },
    ];
    let g = Graph::new(nodes, vec![Edge { from: 5, to: 5, length_bits: 0, exposure_bits: 0 }]);
    assert_eq!(g.index_of_id(5), Some(1));
    assert!(g.edges_from(0).is_empty());
    assert_eq!(g.edges_from(1).len(), 1);
}
