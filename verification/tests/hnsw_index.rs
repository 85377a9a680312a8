use uuid::Uuid;
use vectordb::distance::distance;
use vectordb::hnsw::HnswIndex;
use vectordb::index::VectorIndex;
use vectordb::types::{DistanceMetric, IndexConfig, VectorId};

fn index_bits(values: &[f32]) -> Vec<u32> {
    values.iter().map(|x| x.to_bits()).collect()
}

fn index_kernel(a: &Vec<u32>, b: &Vec<u32>, metric: DistanceMetric) -> u32 {
    let x: Vec<f32> = a.iter().map(|v| f32::from_bits(*v)).collect();
    let y: Vec<f32> = b.iter().map(|v| f32::from_bits(*v)).collect();
    let dot: f32 = x.iter().zip(y.iter()).map(|(p, q)| p * q).sum();
    let d = match metric {
        DistanceMetric::Cosine => {
            let na = x.iter().map(|p| p * p).sum::<f32>().sqrt();
            let nb = y.iter().map(|p| p * p).sum::<f32>().sqrt();
            if na == 0.0 || nb == 0.0 {
                1.0
            } else {
                1.0 - dot / (na * nb)
            }
        }
        DistanceMetric::Euclidean => x
            .iter()
            .zip(y.iter())
            .map(|(p, q)| (p - q) * (p - q))
            .sum::<f32>()
            .sqrt(),
        DistanceMetric::DotProduct => -dot,
        DistanceMetric::Manhattan => x.iter().zip(y.iter()).map(|(p, q)| (p - q).abs()).sum(),
    };
    d.to_bits()
}

fn new_id() -> VectorId {
    Uuid::new_v4().as_u128()
}

fn create_test_index() -> HnswIndex {
    let config = IndexConfig {
        max_connections: 16,
        ef_construction: 200,
        ef_search: 50,
        max_layer: 16,
    };
    HnswIndex::new(config, DistanceMetric::Cosine, 3)
}

#[test]
fn test_insert_and_search() {
    let mut index = create_test_index();

    let vectors = vec![
        vec![1.0, 0.0, 0.0],
        vec![0.0, 1.0, 0.0],
        vec![0.0, 0.0, 1.0],
    ];

    let ids: Vec<VectorId> = (0..3).map(|_| new_id()).collect();

    for (i, vector) in vectors.iter().enumerate() {
        index
            .insert(ids[i], &index_bits(vector), None, &index_kernel)
            .unwrap();
    }

    let query = index_bits(&[1.0, 0.0, 0.0]);
    let results = index.search(&query, 2, None, &index_kernel).unwrap();

    assert!(!results.is_empty());
    assert_eq!(results[0].id, ids[0]);
}

#[test]
fn test_delete() {
    let mut index = create_test_index();

    let id = new_id();
    let vector = index_bits(&[1.0, 0.0, 0.0]);

    index.insert(id, &vector, None, &index_kernel).unwrap();
    assert!(index.delete(&id).unwrap());
    assert!(!index.delete(&id).unwrap());

    let results = index.search(&vector, 1, None, &index_kernel).unwrap();
    assert!(results.is_empty());
}

#[test]
fn test_layer_selection() {
    let mut index = create_test_index();

    for _ in 0..100 {
        let layer = index.select_layer();
        assert!(layer <= index.config().max_layer);
    }
}

#[test]
fn search_returns_nearest_first_with_distances() {
    let mut index = HnswIndex::with_seed(IndexConfig::default(), DistanceMetric::Euclidean, 2, 7);
    let points = [[0.0f32, 0.0], [3.0, 4.0], [6.0, 8.0], [1.0, 0.0]];
    for (i, p) in points.iter().enumerate() {
        index
            .insert(i as u128 + 1, &index_bits(p), None, &index_kernel)
            .unwrap();
    }
    let found = index
        .search(&index_bits(&[0.0, 0.0]), 4, None, &index_kernel)
        .unwrap();
    let ids: Vec<u128> = found.iter().map(|r| r.id).collect();
    assert_eq!(ids, vec![1, 4, 2, 3]);
    let distances: Vec<f32> = found.iter().map(|r| f32::from_bits(r.distance)).collect();
    assert_eq!(distances, vec![0.0, 1.0, 5.0, 10.0]);
}

#[test]
fn search_respects_limit_and_reports_dimension_mismatch() {
    let mut index = HnswIndex::with_seed(IndexConfig::default(), DistanceMetric::Euclidean, 2, 1);
    for i in 0..10u32 {
        index
            .insert(i as u128, &index_bits(&[i as f32, 0.0]), None, &index_kernel)
            .unwrap();
    }
    let found = index
        .search(&index_bits(&[0.0, 0.0]), 3, None, &index_kernel)
        .unwrap();
    assert_eq!(found.len(), 3);
    assert_eq!(found[0].id, 0);
    let none = index
        .search(&index_bits(&[0.0, 0.0]), 0, Some(0), &index_kernel)
        .unwrap();
    assert!(none.is_empty());
    let error = index
        .search(&index_bits(&[0.0, 0.0, 0.0]), 3, None, &index_kernel)
        .unwrap_err();
    assert!(matches!(
        error,
        vectordb::error::VectorDbError::InvalidDimension {
            expected: 2,
            actual: 3
        }
    ));
    let error = index
        .insert(99, &index_bits(&[1.0]), None, &index_kernel)
        .unwrap_err();
    assert!(matches!(
        error,
        vectordb::error::VectorDbError::InvalidDimension {
            expected: 2,
            actual: 1
        }
    ));
    assert_eq!(index.len(), 10);
}

#[test]
fn self_query_finds_the_inserted_vector() {
    for metric in [
        DistanceMetric::Cosine,
        DistanceMetric::Euclidean,
        DistanceMetric::DotProduct,
    ] {
        let mut index = HnswIndex::with_seed(IndexConfig::default(), metric, 3, 11);
        let v = index_bits(&[0.5, -2.0, 1.5]);
        index.insert(42, &v, None, &index_kernel).unwrap();
        let found = index.search(&v, 1, None, &index_kernel).unwrap();
        assert_eq!(found.len(), 1);
        assert_eq!(found[0].id, 42);
        let d = f32::from_bits(found[0].distance);
        match metric {
            DistanceMetric::DotProduct => assert_eq!(d, -(0.25 + 4.0 + 2.25)),
            _ => assert!(d.abs() <= 1e-5),
        }
    }
}

#[test]
fn degree_cap_holds_after_many_inserts() {
    let config = IndexConfig {
        max_connections: 2,
        ef_construction: 10,
        ef_search: 10,
        max_layer: 4,
    };
    let mut index = HnswIndex::with_seed(config, DistanceMetric::Euclidean, 2, 3);
    for i in 0..200u32 {
        let x = (i % 17) as f32;
        let y = (i / 17) as f32;
        index
            .insert(i as u128, &index_bits(&[x, y]), None, &index_kernel)
            .unwrap();
    }
    assert_eq!(index.len(), 200);
    for id in index.ids() {
        let node = index.node(&id).unwrap();
        assert_eq!(node.connections.len(), node.layer + 1);
        assert!(node.layer <= 4);
        for layer in 0..node.connections.len() {
            let cap = if layer == 0 { 4 } else { 2 };
            assert!(node.connection_count(layer) <= cap);
            for neighbor in node.get_connections(layer) {
                assert!(index.contains(neighbor));
            }
        }
    }
    let entry = index.entry_point().unwrap();
    let top = index.node(&entry).unwrap().layer;
    assert_eq!(top, index.stats().max_layer);
}

#[test]
fn insert_at_layer_links_both_ways_below_the_cap() {
    let config = IndexConfig {
        max_connections: 4,
        ef_construction: 10,
        ef_search: 10,
        max_layer: 3,
    };
    let mut index = HnswIndex::with_seed(config, DistanceMetric::Euclidean, 1, 5);
    index
        .insert_at_layer(1, &index_bits(&[0.0]), None, 1, &index_kernel)
        .unwrap();
    index
        .insert_at_layer(2, &index_bits(&[1.0]), None, 0, &index_kernel)
        .unwrap();
    index
        .insert_at_layer(3, &index_bits(&[2.0]), None, 1, &index_kernel)
        .unwrap();
    assert_eq!(index.entry_point(), Some(1));
    assert_eq!(index.node(&1).unwrap().get_connections(0), &[2, 3]);
    assert_eq!(index.node(&1).unwrap().get_connections(1), &[3]);
    assert_eq!(index.node(&2).unwrap().get_connections(0), &[1, 3]);
    assert_eq!(index.node(&3).unwrap().get_connections(0), &[2, 1]);
    assert_eq!(index.node(&3).unwrap().get_connections(1), &[1]);
    index
        .insert_at_layer(4, &index_bits(&[9.0]), None, 3, &index_kernel)
        .unwrap();
    assert_eq!(index.entry_point(), Some(4));
    assert_eq!(index.node(&4).unwrap().get_connections(2), &[] as &[u128]);
    assert_eq!(index.node(&4).unwrap().get_connections(1), &[3, 1]);
}

fn assert_symmetric(index: &HnswIndex) {
    for id in index.ids() {
        let node = index.node(&id).unwrap();
        for layer in 0..node.connections.len() {
            for neighbor in node.get_connections(layer) {
                assert_ne!(*neighbor, id, "{} lists itself", id);
                let other = index.node(neighbor).unwrap();
                assert!(
                    other.get_connections(layer).contains(&id),
                    "{} lists {} at layer {} and is not listed by it",
                    id,
                    neighbor,
                    layer
                );
            }
        }
    }
}

#[test]
fn every_edge_has_its_reverse_after_many_inserts() {
    let config = IndexConfig {
        max_connections: 2,
        ef_construction: 10,
        ef_search: 10,
        max_layer: 4,
    };
    let mut index = HnswIndex::with_seed(config, DistanceMetric::Euclidean, 2, 3);
    for i in 0..200u32 {
        let x = ((i * 7) % 17) as f32;
        let y = ((i * 5) % 13) as f32;
        index
            .insert(i as u128, &index_bits(&[x, y]), None, &index_kernel)
            .unwrap();
        assert_symmetric(&index);
    }
    assert_eq!(index.len(), 200);
    let mut full = 0;
    for id in index.ids() {
        if index.node(&id).unwrap().connection_count(0) == 4 {
            full += 1;
        }
    }
    assert!(full > 0);
    for i in 0..50u32 {
        assert!(index.delete(&(i as u128)).unwrap());
        assert_symmetric(&index);
    }
}

#[test]
fn a_full_neighbour_list_keeps_its_nearest_on_insert() {
    let config = IndexConfig {
        max_connections: 1,
        ef_construction: 10,
        ef_search: 10,
        max_layer: 0,
    };
    let mut index = HnswIndex::with_seed(config, DistanceMetric::Euclidean, 1, 5);
    index
        .insert_at_layer(1, &index_bits(&[0.0]), None, 0, &index_kernel)
        .unwrap();
    index
        .insert_at_layer(2, &index_bits(&[1.0]), None, 0, &index_kernel)
        .unwrap();
    index
        .insert_at_layer(3, &index_bits(&[0.1]), None, 0, &index_kernel)
        .unwrap();
    assert_eq!(index.node(&1).unwrap().get_connections(0), &[2, 3]);
    index
        .insert_at_layer(4, &index_bits(&[0.05]), None, 0, &index_kernel)
        .unwrap();
    // Node 1 is full. It takes 4 in place of 2, its farthest neighbour,
    // and 2 drops its edge to 1.
    assert_eq!(index.node(&4).unwrap().get_connections(0), &[1]);
    assert_eq!(index.node(&1).unwrap().get_connections(0), &[3, 4]);
    assert_eq!(index.node(&2).unwrap().get_connections(0), &[] as &[u128]);
    assert_eq!(index.node(&3).unwrap().get_connections(0), &[1]);
    assert_symmetric(&index);
    // Node 1 is full again and 6 is farther from it than 3 and 4: no edge
    // is made, in either direction.
    index
        .insert_at_layer(6, &index_bits(&[-5.0]), None, 0, &index_kernel)
        .unwrap();
    assert_eq!(index.node(&6).unwrap().get_connections(0), &[] as &[u128]);
    assert_eq!(index.node(&1).unwrap().get_connections(0), &[3, 4]);
    assert_symmetric(&index);
}

#[test]
fn delete_strips_edges_and_moves_the_entry_point() {
    let config = IndexConfig {
        max_connections: 4,
        ef_construction: 10,
        ef_search: 10,
        max_layer: 3,
    };
    let mut index = HnswIndex::with_seed(config, DistanceMetric::Euclidean, 1, 5);
    index
        .insert_at_layer(1, &index_bits(&[0.0]), None, 2, &index_kernel)
        .unwrap();
    index
        .insert_at_layer(2, &index_bits(&[1.0]), None, 1, &index_kernel)
        .unwrap();
    index
        .insert_at_layer(3, &index_bits(&[2.0]), None, 0, &index_kernel)
        .unwrap();
    assert_eq!(index.entry_point(), Some(1));
    assert!(index.delete(&1).unwrap());
    assert_eq!(index.entry_point(), Some(2));
    assert!(!index.contains(&1));
    assert_eq!(index.node(&2).unwrap().get_connections(0), &[3]);
    assert_eq!(index.node(&2).unwrap().get_connections(1), &[] as &[u128]);
    assert_eq!(index.node(&3).unwrap().get_connections(0), &[2]);
    let found = index
        .search(&index_bits(&[0.0]), 5, None, &index_kernel)
        .unwrap();
    assert!(found.iter().all(|r| r.id != 1));
    assert_eq!(found.len(), 2);
    assert!(index.delete(&2).unwrap());
    assert!(index.delete(&3).unwrap());
    assert_eq!(index.entry_point(), None);
    assert_eq!(index.len(), 0);
}

#[test]
fn stats_count_nodes_edges_and_bytes() {
    let mut index = HnswIndex::with_seed(IndexConfig::default(), DistanceMetric::Euclidean, 2, 9);
    let empty = index.stats();
    assert_eq!(empty.vector_count, 0);
    assert_eq!(empty.memory_usage, 0);
    assert_eq!(empty.max_layer, 0);
    assert_eq!(empty.total_connections, 0);
    assert_eq!(empty.dimension, 2);
    index
        .insert_at_layer(1, &index_bits(&[0.0, 0.0]), None, 0, &index_kernel)
        .unwrap();
    index
        .insert_at_layer(2, &index_bits(&[1.0, 0.0]), None, 2, &index_kernel)
        .unwrap();
    let stats = index.stats();
    assert_eq!(stats.vector_count, 2);
    assert_eq!(stats.max_layer, 2);
    assert_eq!(stats.total_connections, 2);
    let header = std::mem::size_of::<vectordb::node::HnswNode>();
    assert_eq!(stats.memory_usage, 2 * header + 2 * 8 + 2 * 16);
}

#[test]
fn results_are_always_inserted_ids() {
    let mut index = HnswIndex::with_seed(IndexConfig::default(), DistanceMetric::Manhattan, 2, 21);
    let mut inserted = Vec::new();
    for i in 0..50u32 {
        let id = 1000 + i as u128;
        index
            .insert(id, &index_bits(&[(i * 7 % 13) as f32, (i * 5 % 11) as f32]), None, &index_kernel)
            .unwrap();
        inserted.push(id);
        let found = index
            .search(&index_bits(&[3.0, 3.0]), 10, None, &index_kernel)
            .unwrap();
        assert!(!found.is_empty());
        assert!(found.iter().all(|r| inserted.contains(&r.id)));
    }
}

#[test]
fn thousand_vectors_are_each_found_by_their_own_query() {
    let config = IndexConfig::default();
    let mut index = HnswIndex::with_seed(config, DistanceMetric::Cosine, 3, 2024);
    let d = 3usize;
    let mut vectors = Vec::new();
    for i in 0..1000usize {
        let v: Vec<f32> = (0..d).map(|j| ((i * d + j) as f32).sin()).collect();
        vectors.push(index_bits(&v));
    }
    for (i, v) in vectors.iter().enumerate() {
        index.insert(i as u128, v, None, &index_kernel).unwrap();
    }
    assert_eq!(index.len(), 1000);
    // The vectors i and i + 710 point the same way to within the resolution
    // of binary32 (3 * 710 is 339 turns and 0.0002 radians), so a query may
    // be answered with the twin, at a distance no greater than its own.
    let mut own = 0;
    for (i, v) in vectors.iter().enumerate() {
        let found = index.search(v, 1, None, &index_kernel).unwrap();
        assert_eq!(found.len(), 1);
        let id = found[0].id as usize;
        assert!(id == i || id == i + 710 || id + 710 == i, "{} answered with {}", i, id);
        let to_self = f32::from_bits(index_kernel(v, v, DistanceMetric::Cosine));
        let distance = f32::from_bits(found[0].distance);
        assert!(distance <= to_self);
        assert!(distance.abs() <= 1e-5);
        if id == i {
            own += 1;
        }
    }
    assert!(own >= 710);
}

fn line_index() -> HnswIndex {
    let config = IndexConfig {
        max_connections: 4,
        ef_construction: 10,
        ef_search: 10,
        max_layer: 3,
    };
    let mut index = HnswIndex::with_seed(config, DistanceMetric::Euclidean, 1, 5);
    index
        .insert_at_layer(1, &index_bits(&[0.0]), None, 1, &index_kernel)
        .unwrap();
    index
        .insert_at_layer(2, &index_bits(&[1.0]), None, 0, &index_kernel)
        .unwrap();
    index
        .insert_at_layer(3, &index_bits(&[2.0]), None, 1, &index_kernel)
        .unwrap();
    index
}

#[test]
fn search_layer_keeps_entry_points_unless_nearer_nodes_fill_the_list() {
    let index = line_index();
    let query = index_bits(&[2.2]);
    let found = index.search_layer(&query, &vec![1], 5, 0, &index_kernel);
    let ids: Vec<u128> = found.iter().map(|c| c.id).collect();
    assert_eq!(ids, vec![3, 2, 1]);
    let found = index.search_layer(&query, &vec![1], 1, 0, &index_kernel);
    let ids: Vec<u128> = found.iter().map(|c| c.id).collect();
    assert_eq!(ids, vec![3]);
    assert!((f32::from_bits(found[0].distance) - 0.2).abs() < 1e-6);
    let found = index.search_layer(&query, &vec![1, 99, 1], 5, 1, &index_kernel);
    let ids: Vec<u128> = found.iter().map(|c| c.id).collect();
    assert_eq!(ids, vec![3, 1]);
    assert!(index.search_layer(&query, &vec![99], 5, 0, &index_kernel).is_empty());
    assert!(index.search_layer(&query, &vec![1], 0, 0, &index_kernel).is_empty());
    assert!(index.search_layer(&query, &Vec::new(), 5, 0, &index_kernel).is_empty());
    let found = index.search_layer(&query, &vec![2], 5, 7, &index_kernel);
    let ids: Vec<u128> = found.iter().map(|c| c.id).collect();
    assert_eq!(ids, vec![2]);
}

#[test]
fn selection_takes_the_first_m_and_caps_depend_on_the_layer() {
    let index = line_index();
    assert_eq!(index.get_m_values(0), (4, 8));
    assert_eq!(index.get_m_values(1), (4, 4));
    assert_eq!(index.get_m_values(9), (4, 4));
    let found = index.search_layer(&index_bits(&[0.0]), &vec![1], 5, 0, &index_kernel);
    assert_eq!(index.select_neighbors(&found, 2), vec![1, 2]);
    assert_eq!(index.select_neighbors(&found, 0), Vec::<u128>::new());
    assert_eq!(index.select_neighbors(&found, 10), vec![1, 2, 3]);
    assert!(vectordb::hnsw::insert::climbs(0));
    assert!(vectordb::hnsw::insert::climbs(0x7fff_ffff_ffff_ffff));
    assert!(!vectordb::hnsw::insert::climbs(0x8000_0000_0000_0000));
    assert!(!vectordb::hnsw::insert::climbs(u64::MAX));
    assert_eq!(vectordb::hnsw::insert::next_layer(0, 0, 16), Some(1));
    assert_eq!(vectordb::hnsw::insert::next_layer(15, 0x7fff_ffff_ffff_ffff, 16), Some(16));
    assert_eq!(vectordb::hnsw::insert::next_layer(16, 0, 16), None);
    assert_eq!(vectordb::hnsw::insert::next_layer(3, 0x8000_0000_0000_0000, 16), None);
    assert_eq!(vectordb::hnsw::insert::next_layer(0, 0, 0), None);
    assert_eq!(index.dimension(), 1);
    assert_eq!(index.distance_metric(), DistanceMetric::Euclidean);
}

#[test]
fn a_snapshot_restores_the_same_graph() {
    let mut index = HnswIndex::with_seed(IndexConfig::default(), DistanceMetric::Euclidean, 2, 13);
    for i in 0..60u32 {
        index
            .insert(i as u128, &index_bits(&[(i % 8) as f32, (i / 8) as f32]), None, &index_kernel)
            .unwrap();
    }
    let snapshot = index.snapshot();
    assert_eq!(snapshot.nodes.len(), 60);
    assert_eq!(snapshot.dimension, 2);
    let mut other = HnswIndex::with_seed(
        IndexConfig {
            max_connections: 1,
            ef_construction: 1,
            ef_search: 1,
            max_layer: 1,
        },
        DistanceMetric::Cosine,
        9,
        1,
    );
    other.restore(snapshot).unwrap();
    assert_eq!(other.len(), 60);
    assert_eq!(other.dimension(), 2);
    assert_eq!(other.distance_metric(), DistanceMetric::Euclidean);
    assert_eq!(other.config(), IndexConfig::default());
    assert_eq!(other.entry_point(), index.entry_point());
    assert_eq!(other.ids(), index.ids());
    for id in index.ids() {
        let a = index.node(&id).unwrap();
        let b = other.node(&id).unwrap();
        assert_eq!(a.vector, b.vector);
        assert_eq!(a.layer, b.layer);
        assert_eq!(a.connections, b.connections);
    }
    let query = index_bits(&[3.2, 4.1]);
    let first: Vec<(u128, u32)> = index
        .search(&query, 5, None, &index_kernel)
        .unwrap()
        .iter()
        .map(|r| (r.id, r.distance))
        .collect();
    let second: Vec<(u128, u32)> = other
        .search(&query, 5, None, &index_kernel)
        .unwrap()
        .iter()
        .map(|r| (r.id, r.distance))
        .collect();
    assert_eq!(first, second);
}

#[test]
fn a_broken_snapshot_is_refused() {
    let index = line_index();
    let broken: Vec<Box<dyn Fn(&mut vectordb::hnsw::snapshot::IndexSnapshot)>> = vec![
        Box::new(|s| s.nodes[1].id = 1),
        Box::new(|s| s.nodes[0].connections[0] = vec![2, 3, 2]),
        Box::new(|s| s.nodes[0].connections[1] = vec![77]),
        Box::new(|s| s.nodes[0].connections[0] = vec![2, 3, 1, 2, 3, 1, 2, 3, 1]),
        Box::new(|s| s.nodes[2].vector = vec![0, 0]),
        Box::new(|s| s.entry_point = Some(77)),
        Box::new(|s| s.entry_point = None),
        Box::new(|s| s.nodes[1].layer = 9),
        Box::new(|s| s.nodes[1].layer = 1),
        Box::new(|s| s.config.max_layer = usize::MAX),
        Box::new(|s| s.dimension = 2),
        Box::new(|s| s.config.max_connections = 0),
    ];
    for (i, damage) in broken.iter().enumerate() {
        let mut snapshot = index.snapshot();
        damage(&mut snapshot);
        let mut target = line_index();
        let before = target.ids();
        let error = target.restore(snapshot).unwrap_err();
        assert!(
            matches!(&error, vectordb::error::VectorDbError::IndexError { message } if message
                == "snapshot violates the index invariant"),
            "case {}",
            i
        );
        assert_eq!(target.ids(), before);
    }
    let mut target = line_index();
    assert!(target.restore(index.snapshot()).is_ok());
    let mut empty = HnswIndex::with_seed(IndexConfig::default(), DistanceMetric::Cosine, 3, 1);
    let nothing = empty.snapshot();
    assert!(target.restore(nothing).is_ok());
    assert_eq!(target.len(), 0);
    assert_eq!(target.dimension(), 3);
    assert!(empty.restore(index.snapshot()).is_ok());
    assert_eq!(empty.len(), 3);
}

#[test]
fn update_through_the_trait_is_delete_then_insert() {
    let mut index = line_index();
    VectorIndex::update(&mut index, 2, &index_bits(&[5.0]), None, &index_kernel).unwrap();
    assert_eq!(index.len(), 3);
    assert_eq!(index.node(&2).unwrap().vector, index_bits(&[5.0]));
    let error = VectorIndex::update(&mut index, 2, &index_bits(&[5.0, 1.0]), None, &index_kernel)
        .unwrap_err();
    assert!(matches!(
        error,
        vectordb::error::VectorDbError::InvalidDimension {
            expected: 1,
            actual: 2
        }
    ));
    assert_eq!(index.len(), 2);
    assert!(!index.contains(&2));
    assert!(VectorIndex::delete(&mut index, &1).unwrap());
    assert_eq!(VectorIndex::stats(&index).vector_count, 1);
    let found = VectorIndex::search(&index, &index_bits(&[0.0]), 3, None, &index_kernel).unwrap();
    assert_eq!(found.len(), 1);
    assert_eq!(found[0].id, 3);
    VectorIndex::insert(&mut index, 8, &index_bits(&[0.5]), None, &index_kernel).unwrap();
    assert!(index.contains(&8));
}

fn ids_codec_encode(snapshot: &vectordb::hnsw::snapshot::IndexSnapshot) -> Vec<u8> {
    let mut bytes = Vec::new();
    for node in &snapshot.nodes {
        bytes.extend_from_slice(&node.id.to_le_bytes());
    }
    bytes
}

fn keep_codec_decode(data: &Vec<u8>) -> Option<vectordb::hnsw::snapshot::IndexSnapshot> {
    if data.is_empty() {
        return None;
    }
    let mut snapshot = line_index().snapshot();
    if data[0] == 0 {
        snapshot.entry_point = Some(99);
    } else {
        snapshot.nodes[0].vector = index_bits(&[data[0] as f32]);
    }
    Some(snapshot)
}

#[test]
fn serialize_and_deserialize_go_through_the_codec() {
    let index = line_index();
    let bytes = index.serialize(&ids_codec_encode);
    assert_eq!(bytes.len(), 48);
    assert_eq!(bytes[0], 1);
    assert_eq!(bytes[16], 2);
    assert_eq!(bytes[32], 3);
    let mut target = HnswIndex::with_seed(IndexConfig::default(), DistanceMetric::Cosine, 7, 1);
    target.deserialize(&vec![5], &keep_codec_decode).unwrap();
    assert_eq!(target.len(), 3);
    assert_eq!(target.dimension(), 1);
    assert_eq!(target.node(&1).unwrap().vector, index_bits(&[5.0]));
    let error = target.deserialize(&Vec::new(), &keep_codec_decode).unwrap_err();
    assert!(matches!(
        error,
        vectordb::error::VectorDbError::Serialization(message) if message == "malformed index"
    ));
    let error = target.deserialize(&vec![0], &keep_codec_decode).unwrap_err();
    assert!(matches!(error, vectordb::error::VectorDbError::IndexError { .. }));
    assert_eq!(target.node(&1).unwrap().vector, index_bits(&[5.0]));
}

#[test]
fn test_distance_calculations() {
    let a = index_bits(&[1.0, 0.0, 0.0]);
    let b = index_bits(&[0.0, 1.0, 0.0]);

    let cos_dist = f32::from_bits(distance(&a, &b, DistanceMetric::Cosine, &index_kernel));
    assert!((cos_dist - 1.0).abs() < 1e-6);

    let eucl_dist = f32::from_bits(distance(&a, &b, DistanceMetric::Euclidean, &index_kernel));
    assert!((eucl_dist - 1.414213).abs() < 1e-5);

    println!("Distance calculations test passed");
}
