use uuid::Uuid;
use vectordb::node::HnswNode;
use vectordb::ordering::{is_closer, rank};
use vectordb::types::{MetadataEntry, MetadataValue, VectorId};

fn node_bits(values: &[f32]) -> Vec<u32> {
    values.iter().map(|x| x.to_bits()).collect()
}

#[test]
fn test_node_creation() {
    let id = Uuid::new_v4().as_u128();
    let vector = node_bits(&[1.0, 2.0, 3.0]);
    let node = HnswNode::new(id, vector.clone(), None, 3);

    assert_eq!(node.id, id);
    assert_eq!(node.vector, vector);
    assert_eq!(node.layer, 3);
    assert_eq!(node.connections.len(), 4);
}

#[test]
fn test_connections() {
    let id = Uuid::new_v4().as_u128();
    let neighbor_id = Uuid::new_v4().as_u128();
    let mut node = HnswNode::new(id, node_bits(&[1.0, 2.0]), None, 2);

    node.add_connection(0, neighbor_id);
    assert_eq!(node.get_connections(0), &[neighbor_id]);
    assert_eq!(node.connection_count(0), 1);

    let removed = node.remove_connection(0, &neighbor_id);
    assert!(removed);
    assert_eq!(node.connection_count(0), 0);
}

#[test]
fn test_prune_connections() {
    let id = Uuid::new_v4().as_u128();
    let mut node = HnswNode::new(id, node_bits(&[0.0, 0.0]), None, 1);

    let neighbors = (0..5).map(|_| Uuid::new_v4().as_u128()).collect::<Vec<_>>();
    for neighbor in &neighbors {
        node.add_connection(0, *neighbor);
    }

    let get_distance = |neighbor_id: &VectorId| {
        neighbors
            .iter()
            .position(|&n| n == *neighbor_id)
            .map(|i| (i as f32).to_bits())
    };

    node.prune_connections(0, 3, get_distance);
    assert_eq!(node.connection_count(0), 3);

    let kept_connections = node.get_connections(0);
    assert!(kept_connections.contains(&neighbors[0]));
    assert!(kept_connections.contains(&neighbors[1]));
    assert!(kept_connections.contains(&neighbors[2]));
}

#[test]
fn prune_sorts_by_distance_and_drops_unmeasured() {
    let mut node = HnswNode::new(1, node_bits(&[0.0]), None, 0);
    for id in [10u128, 20, 30, 40, 50] {
        node.add_connection(0, id);
    }
    let measure = |id: &VectorId| match *id {
        10 => Some(5.0f32.to_bits()),
        20 => Some(1.0f32.to_bits()),
        30 => None,
        40 => Some(1.0f32.to_bits()),
        50 => Some((-2.0f32).to_bits()),
        _ => None,
    };
    node.prune_connections(0, 3, measure);
    assert_eq!(node.get_connections(0), &[50, 20, 40]);
    node.prune_connections(0, 3, measure);
    assert_eq!(node.get_connections(0), &[50, 20, 40]);
    node.prune_connections(7, 0, measure);
    assert_eq!(node.get_connections(0), &[50, 20, 40]);
}

#[test]
fn connections_are_idempotent_and_bounded_by_layers() {
    let mut node = HnswNode::new(1, node_bits(&[0.0]), None, 1);
    node.add_connection(0, 7);
    node.add_connection(0, 7);
    node.add_connection(1, 8);
    node.add_connection(2, 9);
    assert_eq!(node.get_connections(0), &[7]);
    assert_eq!(node.get_connections(1), &[8]);
    assert_eq!(node.get_connections(2), &[] as &[u128]);
    assert_eq!(node.connection_count(2), 0);
    assert!(!node.remove_connection(2, &9));
    assert!(!node.remove_connection(0, &8));
    assert!(node.remove_connection(1, &8));
    assert_eq!(node.link_count(), 1);
}

#[test]
fn memory_usage_counts_vector_links_and_metadata() {
    let header = std::mem::size_of::<HnswNode>();
    let bare = HnswNode::new(1, node_bits(&[1.0, 2.0, 3.0]), None, 1);
    assert_eq!(bare.memory_usage(), header + 12);
    let metadata = vec![
        MetadataEntry {
            key: "name".to_string(),
            value: MetadataValue::Text("héllo".to_string()),
        },
        MetadataEntry {
            key: "n".to_string(),
            value: MetadataValue::Json("12.5".to_string()),
        },
    ];
    let mut node = HnswNode::new(1, node_bits(&[1.0, 2.0, 3.0]), Some(metadata), 1);
    node.add_connection(0, 5);
    node.add_connection(0, 6);
    node.add_connection(1, 5);
    assert_eq!(node.memory_usage(), header + 12 + 3 * 16 + (4 + 6) + (1 + 32));
}

#[test]
fn distances_rank_as_numbers_with_nan_last() {
    let values = [
        f32::NEG_INFINITY,
        -3.5,
        -0.0,
        0.0,
        1e-30,
        2.0,
        f32::INFINITY,
    ];
    for a in values {
        for b in values {
            assert_eq!(is_closer(a.to_bits(), b.to_bits()), a < b, "{} {}", a, b);
        }
    }
    assert_eq!(rank(0.0f32.to_bits()), 0);
    assert_eq!(rank((-0.0f32).to_bits()), 0);
    assert_eq!(rank(1.0f32.to_bits()), 0x3f80_0000);
    assert_eq!(rank((-1.0f32).to_bits()), -0x3f80_0000);
    assert_eq!(rank(f32::NAN.to_bits()), 0x8000_0000);
    assert!(is_closer(f32::INFINITY.to_bits(), f32::NAN.to_bits()));
    assert!(!is_closer(f32::NAN.to_bits(), f32::INFINITY.to_bits()));
    assert!(!is_closer(f32::NAN.to_bits(), (-f32::NAN).to_bits()));
}
