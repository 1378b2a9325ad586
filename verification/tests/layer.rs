use anka::hnsw::layer::{bytes_of, Layer, LayerShapeError};
use anka::NodeId;

#[test]
fn a_dense_layer_addresses_slots_by_node_id() {
    let mut layer = Layer::dense(4, 8);
    assert!(layer.is_dense());
    assert!(layer.is_empty());

    for node in 0..3 {
        layer.add(node);
    }
    assert_eq!(layer.len(), 3);
    assert!(layer.contains(0));
    assert!(layer.contains(2));
    assert!(!layer.contains(3));
    assert_eq!(layer.nodes(), vec![0, 1, 2]);
}

#[test]
fn a_sparse_layer_only_allocates_for_present_nodes() {
    let mut layer = Layer::sparse(4);
    assert!(!layer.is_dense());

    layer.add(100);
    layer.add(5);
    assert_eq!(layer.len(), 2);
    assert!(layer.contains(100));
    assert!(layer.contains(5));
    assert!(!layer.contains(0));
    assert!(!layer.contains(50));
    assert!(!layer.contains(1_000_000));
    assert_eq!(layer.nodes(), vec![100, 5]);
}

#[test]
fn neighbours_start_empty_and_can_be_appended() {
    let mut layer = Layer::sparse(3);
    layer.add(7);
    assert_eq!(layer.degree(7), 0);
    assert_eq!(layer.neighbors(7), &[] as &[NodeId]);

    assert!(layer.push_neighbor(7, 1));
    assert!(layer.push_neighbor(7, 2));
    assert_eq!(layer.neighbors(7), &[1, 2]);
    assert_eq!(layer.degree(7), 2);
}

#[test]
fn appending_past_max_degree_is_refused() {
    let mut layer = Layer::sparse(2);
    layer.add(0);
    assert!(layer.push_neighbor(0, 1));
    assert!(layer.push_neighbor(0, 2));
    assert!(!layer.push_neighbor(0, 3));
    assert_eq!(layer.neighbors(0), &[1, 2]);
}

#[test]
fn set_neighbors_replaces_the_whole_list() {
    let mut layer = Layer::sparse(4);
    layer.add(0);
    layer.set_neighbors(0, &[9, 8, 7]);
    assert_eq!(layer.neighbors(0), &[9, 8, 7]);

    layer.set_neighbors(0, &[1]);
    assert_eq!(layer.neighbors(0), &[1]);
    assert_eq!(layer.degree(0), 1);

    layer.set_neighbors(0, &[]);
    assert_eq!(layer.degree(0), 0);
}

#[test]
fn slots_stay_independent() {
    let mut layer = Layer::dense(3, 4);
    for node in 0..3 {
        layer.add(node);
    }
    layer.set_neighbors(0, &[10, 11, 12]);
    layer.set_neighbors(1, &[20]);
    layer.set_neighbors(2, &[30, 31]);

    assert_eq!(layer.neighbors(0), &[10, 11, 12]);
    assert_eq!(layer.neighbors(1), &[20]);
    assert_eq!(layer.neighbors(2), &[30, 31]);
}

#[test]
fn a_layer_survives_a_round_trip_through_its_raw_arrays() {
    for dense in [true, false] {
        let mut layer = if dense {
            Layer::dense(4, 6)
        } else {
            Layer::sparse(4)
        };
        let members: Vec<NodeId> = if dense {
            (0..6).collect()
        } else {
            vec![3, 11, 40]
        };
        for &node in &members {
            layer.add(node);
        }
        layer.set_neighbors(members[0], &[members[1], members[2]]);
        layer.set_neighbors(members[2], &[members[0]]);

        let restored = Layer::from_parts(
            layer.max_degree(),
            dense,
            layer.slot_nodes().to_vec(),
            layer.raw_neighbors().to_vec(),
        )
        .expect("well-shaped");

        assert_eq!(restored.is_dense(), dense);
        assert_eq!(restored.len(), layer.len());
        assert_eq!(
            restored.nodes(),
            layer.nodes()
        );
        for &node in &members {
            assert!(restored.contains(node));
            assert_eq!(
                restored.neighbors(node),
                layer.neighbors(node),
                "node {node}"
            );
        }
        // A node that was never added must still read as absent after the rebuild.
        assert!(!restored.contains(99));
    }
}

#[test]
fn malformed_layer_arrays_are_rejected() {
    // 7 entries cannot divide into slots of 5.
    assert_eq!(
        Layer::from_parts(4, true, Vec::new(), vec![0; 7]).unwrap_err(),
        LayerShapeError::RaggedAdjacency { len: 7, stride: 5 }
    );
    // Layer 0's slot is its node id, so a slot table there is a contradiction.
    assert_eq!(
        Layer::from_parts(4, true, vec![0, 1], vec![0; 10]).unwrap_err(),
        LayerShapeError::DenseLayerHasSlotTable { len: 2 }
    );
    // Two slots of adjacency, three nodes claiming them.
    assert_eq!(
        Layer::from_parts(4, false, vec![0, 1, 2], vec![0; 10]).unwrap_err(),
        LayerShapeError::SlotCountMismatch { nodes: 3, slots: 2 }
    );
    // The same node in two slots would make the derived table ambiguous.
    assert_eq!(
        Layer::from_parts(4, false, vec![5, 5], vec![0; 10]).unwrap_err(),
        LayerShapeError::DuplicateNode { node: 5 }
    );
}

#[test]
fn a_sparse_layer_is_far_smaller_than_a_dense_one() {
    let node_count = 100_000;
    let max_degree = 16;

    let mut dense = Layer::dense(max_degree, node_count);
    for node in 0..node_count as NodeId {
        dense.add(node);
    }

    let mut sparse = Layer::sparse(max_degree);
    for node in (0..node_count as NodeId).step_by(16) {
        sparse.add(node);
    }

    assert_eq!(dense.len(), node_count);
    assert_eq!(sparse.len(), node_count / 16);
    assert!(
        sparse.memory_bytes() * 4 < dense.memory_bytes(),
        "sparse {} vs dense {}",
        sparse.memory_bytes(),
        dense.memory_bytes()
    );
}

#[test]
fn a_layer_takes_four_bytes_for_each_entry() {
    assert_eq!(bytes_of(3, 4, 5), 48);
    assert_eq!(bytes_of(0, 0, 0), 0);
    assert_eq!(bytes_of(usize::MAX, 0, 0), usize::MAX);
    assert_eq!(bytes_of(usize::MAX / 4, 1, 0), usize::MAX);

    // Room was asked for, and no table finds slots in a dense layer.
    let dense = Layer::dense(7, 100);
    assert!(dense.memory_bytes() >= 4 * 800);
    assert_eq!(dense.memory_bytes() % 4, 0);
}

#[test]
fn a_layer_holds_what_was_added_whatever_came_between() {
    let mut layer = Layer::sparse(2);
    assert!(layer.is_empty());
    layer.add(9);
    layer.set_neighbors(9, &[4, 5]);
    layer.add(4);
    assert!(layer.push_neighbor(4, 7));
    assert!(!layer.push_neighbor(9, 7));
    assert_eq!(layer.len(), 2);
    assert_eq!(layer.nodes(), vec![9, 4]);
    assert!(layer.contains(4) && layer.contains(9));
    // Ids that only occur as neighbours are not members.
    assert!(!layer.contains(5) && !layer.contains(7));
}
