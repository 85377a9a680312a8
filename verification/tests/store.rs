use uuid::Uuid;
use vectordb::error::VectorDbError;
use vectordb::names::NameSet;
use vectordb::storage::StorageEngine;
use vectordb::types::{
    CollectionConfig, DistanceMetric, IndexConfig, QueryRequest, Vector, VectorType,
};
use vectordb::vectorstore::VectorStore;
use vectordb::wal::{WALOperation, WriteAheadLog};

fn store_bits(values: &[f32]) -> Vec<u32> {
    values.iter().map(|x| x.to_bits()).collect()
}

fn store_kernel(a: &Vec<u32>, b: &Vec<u32>, metric: DistanceMetric) -> u32 {
    let x: Vec<f32> = a.iter().map(|v| f32::from_bits(*v)).collect();
    let y: Vec<f32> = b.iter().map(|v| f32::from_bits(*v)).collect();
    let dot: f32 = x.iter().zip(y.iter()).map(|(p, q)| p * q).sum();
    let d = match metric {
        DistanceMetric::Cosine => {
            let na = x.iter().map(|p| p * p).sum::<f32>().sqrt();
            let nb = y.iter().map(|p| p * p).sum::<f32>().sqrt();
            if na == 0.0 || nb == 0.0 {
                1.0
            } else {
                1.0 - dot / (na * nb)
            }
        }
        DistanceMetric::Euclidean => x
            .iter()
            .zip(y.iter())
            .map(|(p, q)| (p - q) * (p - q))
            .sum::<f32>()
            .sqrt(),
        DistanceMetric::DotProduct => -dot,
        DistanceMetric::Manhattan => x.iter().zip(y.iter()).map(|(p, q)| (p - q).abs()).sum(),
    };
    d.to_bits()
}

fn store_config(name: &str, dimension: usize) -> CollectionConfig {
    CollectionConfig {
        name: name.to_string(),
        dimension,
        distance_metric: DistanceMetric::Cosine,
        vector_type: VectorType::Float32,
        index_config: IndexConfig::default(),
    }
}

fn create_test_store() -> VectorStore {
    VectorStore::new("data", WriteAheadLog::new(), NameSet::new()).unwrap()
}

fn store_vector(id: u128, values: &[f32]) -> Vector {
    Vector {
        id,
        data: store_bits(values),
        metadata: None,
    }
}

#[test]
fn test_create_collection() {
    let mut store = create_test_store();

    let config = store_config("test", 128);

    store.create_collection(&config).unwrap();

    let collections = store.list_collections();
    assert!(collections.contains(&"test".to_string()));
}

#[test]
fn test_insert_and_query() {
    let mut store = create_test_store();

    let config = store_config("test", 3);

    store.create_collection(&config).unwrap();

    let vector = Vector {
        id: Uuid::new_v4().as_u128(),
        data: store_bits(&[1.0, 0.0, 0.0]),
        metadata: None,
    };

    store.insert("test", &vector, &store_kernel).unwrap();

    let query = QueryRequest {
        collection: "test".to_string(),
        vector: store_bits(&[1.0, 0.0, 0.0]),
        limit: 1,
        ef_search: None,
        filter: None,
    };

    let results = store.query(&query, &store_kernel).unwrap();
    assert_eq!(results.len(), 1);
    assert_eq!(results[0].id, vector.id);
}

#[test]
fn three_axes_query_scenario() {
    let mut store = create_test_store();
    store.create_collection(&store_config("c1", 3)).unwrap();
    store.insert("c1", &store_vector(1, &[1.0, 0.0, 0.0]), &store_kernel).unwrap();
    store.insert("c1", &store_vector(2, &[0.0, 1.0, 0.0]), &store_kernel).unwrap();
    store.insert("c1", &store_vector(3, &[0.0, 0.0, 1.0]), &store_kernel).unwrap();
    let request = QueryRequest {
        collection: "c1".to_string(),
        vector: store_bits(&[1.0, 0.0, 0.0]),
        limit: 2,
        ef_search: None,
        filter: None,
    };
    let results = store.query(&request, &store_kernel).unwrap();
    assert_eq!(results.len(), 2);
    assert_eq!(results[0].id, 1);
    assert!(f32::from_bits(results[0].distance).abs() < 1e-6);
    assert!(results[1].id == 2 || results[1].id == 3);
    assert!((f32::from_bits(results[1].distance) - 1.0).abs() < 1e-6);
}

#[test]
fn dimension_and_existence_are_enforced() {
    let mut store = create_test_store();
    store.create_collection(&store_config("a", 4)).unwrap();
    store.create_collection(&store_config("b", 8)).unwrap();
    let v = store_vector(1, &[1.0, 2.0, 3.0, 4.0]);
    assert!(store.insert("a", &v, &store_kernel).is_ok());
    let error = store.insert("b", &v, &store_kernel).unwrap_err();
    assert!(matches!(error, VectorDbError::InvalidDimension { expected: 8, actual: 4 }));
    let error = store.insert("nonexistent", &v, &store_kernel).unwrap_err();
    assert!(matches!(error, VectorDbError::CollectionNotFound { name } if name == "nonexistent"));
    let error = store.create_collection(&store_config("a", 4)).unwrap_err();
    assert!(matches!(error, VectorDbError::CollectionAlreadyExists { name } if name == "a"));
    let request = QueryRequest {
        collection: "b".to_string(),
        vector: store_bits(&[1.0, 2.0, 3.0, 4.0]),
        limit: 1,
        ef_search: None,
        filter: None,
    };
    let error = store.query(&request, &store_kernel).unwrap_err();
    assert!(matches!(error, VectorDbError::InvalidDimension { expected: 8, actual: 4 }));
    let request = QueryRequest { collection: "zzz".to_string(), ..request };
    let error = store.query(&request, &store_kernel).unwrap_err();
    assert!(matches!(error, VectorDbError::CollectionNotFound { name } if name == "zzz"));
    assert_eq!(store.storage().wal().len(), 3);
    assert_eq!(store.storage().collection("a").unwrap().record_count(), 1);
    assert_eq!(store.storage().collection("b").unwrap().record_count(), 0);
    let mut odd = store_config("odd", 2);
    odd.index_config.max_layer = usize::MAX;
    let error = store.create_collection(&odd).unwrap_err();
    assert!(matches!(error, VectorDbError::ConfigError { message } if message
        == "max_layer is out of range"));
}

#[test]
fn delete_then_query_never_returns_the_id() {
    let mut store = create_test_store();
    store.create_collection(&store_config("c", 2)).unwrap();
    for i in 0..20u32 {
        store
            .insert("c", &store_vector(i as u128, &[1.0, i as f32]), &store_kernel)
            .unwrap();
    }
    let deleted = store.delete("c", &5).unwrap();
    assert!(!deleted);
    assert!(!store.index("c").unwrap().contains(&5));
    let request = QueryRequest {
        collection: "c".to_string(),
        vector: store_bits(&[1.0, 5.0]),
        limit: 20,
        ef_search: Some(100),
        filter: None,
    };
    let results = store.query(&request, &store_kernel).unwrap();
    assert_eq!(results.len(), 19);
    assert!(results.iter().all(|r| r.id != 5));
    let error = store.delete("nope", &5).unwrap_err();
    assert!(matches!(error, VectorDbError::CollectionNotFound { name } if name == "nope"));
    assert!(matches!(store.get("c", &4), Ok(None)));
    assert!(matches!(store.get("nope", &4), Err(VectorDbError::CollectionNotFound { .. })));
}

#[test]
fn batch_insert_validates_before_it_logs() {
    let mut store = create_test_store();
    store.create_collection(&store_config("c", 2)).unwrap();
    assert!(store.batch_insert("missing", &Vec::new(), &store_kernel).is_ok());
    let good = vec![store_vector(1, &[1.0, 0.0]), store_vector(2, &[0.0, 1.0])];
    let error = store.batch_insert("missing", &good, &store_kernel).unwrap_err();
    assert!(matches!(error, VectorDbError::CollectionNotFound { name } if name == "missing"));
    let bad = vec![store_vector(1, &[1.0, 0.0]), store_vector(2, &[0.0]), store_vector(3, &[])];
    let error = store.batch_insert("c", &bad, &store_kernel).unwrap_err();
    assert!(matches!(error, VectorDbError::InvalidDimension { expected: 2, actual: 1 }));
    assert_eq!(store.storage().wal().len(), 1);
    assert_eq!(store.index("c").unwrap().len(), 0);
    store.batch_insert("c", &good, &store_kernel).unwrap();
    assert_eq!(store.storage().wal().len(), 2);
    assert_eq!(store.index("c").unwrap().len(), 2);
    assert_eq!(store.storage().collection("c").unwrap().record_count(), 2);
    let ops = store.storage().wal().read_all();
    assert!(matches!(&ops[1], WALOperation::BatchInsert { collection, vectors } if collection
        == "c" && vectors.len() == 2));
}

#[test]
fn update_is_delete_then_insert() {
    let mut store = create_test_store();
    store.create_collection(&store_config("c", 2)).unwrap();
    store.insert("c", &store_vector(1, &[1.0, 0.0]), &store_kernel).unwrap();
    store.update("c", &store_vector(1, &[0.0, 1.0]), &store_kernel).unwrap();
    let index = store.index("c").unwrap();
    assert_eq!(index.len(), 1);
    assert_eq!(index.node(&1).unwrap().vector, store_bits(&[0.0, 1.0]));
    let ops = store.storage().wal().read_all();
    assert_eq!(ops.len(), 4);
    assert!(matches!(&ops[2], WALOperation::DeleteVector { id: 1, .. }));
    assert!(matches!(&ops[3], WALOperation::InsertVector { .. }));
    let error = store.update("c", &store_vector(1, &[0.0]), &store_kernel).unwrap_err();
    assert!(matches!(error, VectorDbError::InvalidDimension { expected: 2, actual: 1 }));
    assert_eq!(store.index("c").unwrap().len(), 0);
    let error = store.update("x", &store_vector(1, &[0.0, 1.0]), &store_kernel).unwrap_err();
    assert!(matches!(error, VectorDbError::CollectionNotFound { .. }));
}

#[test]
fn stats_merge_storage_and_index() {
    let mut store = create_test_store();
    let empty = store.get_server_stats();
    assert_eq!(empty.total_collections, 0);
    assert_eq!(empty.total_vectors, 0);
    assert_eq!(empty.memory_usage, 0);
    store.create_collection(&store_config("a", 2)).unwrap();
    store.create_collection(&store_config("b", 3)).unwrap();
    store.insert("a", &store_vector(1, &[1.0, 0.0]), &store_kernel).unwrap();
    store.insert("b", &store_vector(1, &[1.0, 0.0, 0.0]), &store_kernel).unwrap();
    store.insert("b", &store_vector(2, &[0.0, 1.0, 0.0]), &store_kernel).unwrap();
    let a = store.get_collection_stats("a").unwrap();
    assert_eq!(a.name, "a");
    assert_eq!(a.vector_count, 1);
    assert_eq!(a.dimension, 2);
    assert_eq!(a.index_size, 0);
    assert_eq!(a.memory_usage, store.index("a").unwrap().stats().memory_usage);
    assert!(store.get_collection_stats("zzz").is_none());
    let stats = store.get_server_stats();
    assert_eq!(stats.total_collections, 2);
    assert_eq!(stats.total_vectors, 3);
    let b = store.get_collection_stats("b").unwrap();
    assert_eq!(stats.memory_usage, (a.memory_usage + b.memory_usage) as u64);
    assert_eq!(stats.disk_usage, 0);
    assert_eq!(stats.uptime_seconds, 0);
    let config = store.get_collection_config("b").unwrap();
    assert_eq!(config.dimension, 3);
    assert!(store.get_collection_config("zzz").is_none());
    store.delete_collection("a").unwrap();
    assert!(store.index("a").is_none());
    assert_eq!(store.list_collections(), vec!["b".to_string()]);
    let error = store.delete_collection("a").unwrap_err();
    assert!(matches!(error, VectorDbError::CollectionNotFound { name } if name == "a"));
}

#[test]
fn restart_from_the_log_restores_collections_with_empty_indexes() {
    let mut store = create_test_store();
    store.create_collection(&store_config("c1", 3)).unwrap();
    for i in 0..10u32 {
        store
            .insert("c1", &store_vector(i as u128, &[i as f32, 1.0, 0.0]), &store_kernel)
            .unwrap();
    }
    let entries = store.storage().wal().read_all();
    let mut wal = WriteAheadLog::new();
    for op in &entries {
        wal.append(op).unwrap();
    }
    let mut again = VectorStore::new("data", wal, NameSet::new()).unwrap();
    assert_eq!(again.list_collections(), vec!["c1".to_string()]);
    assert_eq!(again.get_collection_config("c1").unwrap().dimension, 3);
    assert_eq!(again.storage().collection("c1").unwrap().record_count(), 10);
    assert_eq!(again.index("c1").unwrap().len(), 0);
    assert_eq!(again.storage().wal().len(), 11);
    assert!(again
        .insert("c1", &store_vector(3, &[3.0, 1.0, 0.0]), &store_kernel)
        .is_ok());
    assert_eq!(again.index("c1").unwrap().len(), 1);
}

#[test]
fn restart_with_the_directory_on_disk_restores_the_collection() {
    let mut store = create_test_store();
    store.create_collection(&store_config("c1", 3)).unwrap();
    for i in 0..100u32 {
        store
            .insert("c1", &store_vector(i as u128, &[i as f32, 1.0, 0.0]), &store_kernel)
            .unwrap();
    }
    let entries = store.storage().wal().read_all();
    let mut wal = WriteAheadLog::new();
    for op in &entries {
        wal.append(op).unwrap();
    }
    let mut on_disk = NameSet::new();
    on_disk.insert("c1");
    let again = VectorStore::new("data", wal, on_disk).unwrap();
    assert_eq!(again.list_collections(), vec!["c1".to_string()]);
    let config = again.get_collection_config("c1").unwrap();
    assert_eq!(config, store_config("c1", 3));
    assert_eq!(again.storage().collection("c1").unwrap().record_count(), 100);
    let stats = again.get_collection_stats("c1").unwrap();
    assert_eq!(stats.vector_count, 0);
    assert_eq!(stats.dimension, 3);
    assert_eq!(again.index("c1").unwrap().len(), 0);
    let request = QueryRequest {
        collection: "c1".to_string(),
        vector: store_bits(&[1.0, 1.0, 0.0]),
        limit: 5,
        ef_search: None,
        filter: None,
    };
    assert!(again.query(&request, &store_kernel).unwrap().is_empty());
}

#[test]
fn replaying_a_log_twice_gives_the_same_state() {
    let build = || {
        let mut wal = WriteAheadLog::new();
        wal.append(&WALOperation::CreateCollection(store_config("a", 2))).unwrap();
        wal.append(&WALOperation::InsertVector {
            collection: "a".to_string(),
            vector: store_vector(1, &[1.0, 2.0]),
        })
        .unwrap();
        wal.append(&WALOperation::CreateCollection(store_config("b", 1))).unwrap();
        wal.append(&WALOperation::DeleteCollection("b".to_string())).unwrap();
        wal.append(&WALOperation::BatchInsert {
            collection: "a".to_string(),
            vectors: vec![store_vector(2, &[1.0, 2.0]), store_vector(3, &[3.0, 4.0])],
        })
        .unwrap();
        wal
    };
    let first = StorageEngine::new("data", build(), NameSet::new()).unwrap();
    let second = StorageEngine::new("data", build(), NameSet::new()).unwrap();
    assert_eq!(first.list_collections(), second.list_collections());
    assert_eq!(first.list_collections(), vec!["a".to_string()]);
    assert_eq!(first.collection("a").unwrap().record_count(), 3);
    assert_eq!(second.collection("a").unwrap().record_count(), 3);
    assert_eq!(first.get_collection_config("a").unwrap(), second.get_collection_config("a").unwrap());
    assert_eq!(first.data_dir(), "data");
}

#[test]
fn a_misfit_in_the_log_stops_recovery() {
    let mut wal = WriteAheadLog::new();
    wal.append(&WALOperation::CreateCollection(store_config("a", 2))).unwrap();
    wal.append(&WALOperation::InsertVector {
        collection: "a".to_string(),
        vector: store_vector(1, &[1.0]),
    })
    .unwrap();
    let error = match StorageEngine::new("data", wal, NameSet::new()) {
        Ok(_) => panic!("recovery should stop"),
        Err(error) => error,
    };
    assert!(matches!(error, VectorDbError::InvalidDimension { expected: 2, actual: 1 }));
}

#[test]
fn the_engine_logs_before_it_checks_the_dimension() {
    let mut engine = StorageEngine::new("data", WriteAheadLog::new(), NameSet::new()).unwrap();
    engine.create_collection(&store_config("a", 2)).unwrap();
    let error = engine.insert_vector("a", &store_vector(1, &[1.0])).unwrap_err();
    assert!(matches!(error, VectorDbError::InvalidDimension { expected: 2, actual: 1 }));
    assert_eq!(engine.wal().len(), 2);
    assert_eq!(engine.collection("a").unwrap().record_count(), 0);
    let batch = vec![store_vector(1, &[1.0, 2.0]), store_vector(2, &[1.0]), store_vector(3, &[1.0,
        2.0])];
    let error = engine.batch_insert("a", &batch).unwrap_err();
    assert!(matches!(error, VectorDbError::InvalidDimension { expected: 2, actual: 1 }));
    assert_eq!(engine.wal().len(), 3);
    assert_eq!(engine.collection("a").unwrap().record_count(), 1);
    assert_eq!(engine.delete_vector("a", &1).unwrap(), false);
    assert_eq!(engine.wal().len(), 4);
    assert!(matches!(engine.get_vector("a", &1), Ok(None)));
    assert!(matches!(engine.delete_vector("b", &1), Err(VectorDbError::CollectionNotFound { .. })));
    assert!(matches!(engine.insert_vector("b", &store_vector(1, &[1.0])),
        Err(VectorDbError::CollectionNotFound { .. })));
    assert_eq!(engine.wal().len(), 4);
    assert!(engine.contains_collection("a"));
    let stats = engine.get_collection_stats("a").unwrap();
    assert_eq!((stats.vector_count, stats.dimension, stats.index_size, stats.memory_usage), (0, 2,
        0, 0));
    engine.delete_collection("a").unwrap();
    assert!(!engine.contains_collection("a"));
    assert!(engine.list_collections().is_empty());
}

#[test]
fn a_deleted_collection_answers_not_found() {
    let mut store = create_test_store();
    store.create_collection(&store_config("a", 2)).unwrap();
    store.insert("a", &store_vector(1, &[1.0, 0.0]), &store_kernel).unwrap();
    let request = QueryRequest {
        collection: "a".to_string(),
        vector: store_bits(&[1.0, 0.0]),
        limit: 1,
        ef_search: None,
        filter: None,
    };
    assert_eq!(store.query(&request, &store_kernel).unwrap().len(), 1);
    store.delete_collection("a").unwrap();
    let error = store.query(&request, &store_kernel).unwrap_err();
    assert!(matches!(error, VectorDbError::CollectionNotFound { name } if name == "a"));
}

#[test]
fn what_the_store_admits_it_applies() {
    let mut store = create_test_store();
    let create = WALOperation::CreateCollection(store_config("a", 2));
    assert!(store.admits(&create).is_ok());
    assert_eq!(store.storage().wal().len(), 0);
    store.apply(&create, &store_kernel).unwrap();
    assert!(matches!(store.admits(&create), Err(VectorDbError::CollectionAlreadyExists { .. })));
    assert!(matches!(store.apply(&create, &store_kernel),
        Err(VectorDbError::CollectionAlreadyExists { .. })));
    let mut odd = store_config("odd", 2);
    odd.index_config.max_layer = usize::MAX;
    assert!(matches!(
        store.admits(&WALOperation::CreateCollection(odd)),
        Err(VectorDbError::ConfigError { .. })
    ));
    let good = WALOperation::InsertVector { collection: "a".to_string(), vector: store_vector(1,
        &[1.0, 2.0]) };
    let bad = WALOperation::InsertVector { collection: "a".to_string(), vector: store_vector(1,
        &[1.0]) };
    let lost = WALOperation::InsertVector { collection: "b".to_string(), vector: store_vector(1,
        &[1.0]) };
    assert!(store.admits(&good).is_ok());
    assert!(matches!(store.admits(&bad), Err(VectorDbError::InvalidDimension { expected: 2,
        actual: 1 })));
    assert!(matches!(store.admits(&lost), Err(VectorDbError::CollectionNotFound { .. })));
    store.apply(&good, &store_kernel).unwrap();
    assert!(store.apply(&bad, &store_kernel).is_err());
    assert_eq!(store.index("a").unwrap().len(), 1);
    let batch = |collection: &str, vectors: Vec<Vector>| WALOperation::BatchInsert {
        collection: collection.to_string(),
        vectors,
    };
    assert!(store.admits(&batch("b", Vec::new())).is_ok());
    assert!(matches!(store.admits(&batch("b", vec![store_vector(1, &[1.0])])),
        Err(VectorDbError::CollectionNotFound { .. })));
    assert!(matches!(
        store.admits(&batch("a", vec![store_vector(1, &[1.0, 1.0]), store_vector(2, &[1.0, 1.0, 1.0])])),
        Err(VectorDbError::InvalidDimension { expected: 2, actual: 3 })
    ));
    let two = batch("a", vec![store_vector(2, &[1.0, 1.0]), store_vector(3, &[0.0, 1.0])]);
    assert!(store.admits(&two).is_ok());
    store.apply(&two, &store_kernel).unwrap();
    assert_eq!(store.index("a").unwrap().len(), 3);
    let delete = WALOperation::DeleteVector { collection: "a".to_string(), id: 2 };
    assert!(store.admits(&delete).is_ok());
    store.apply(&delete, &store_kernel).unwrap();
    assert_eq!(store.index("a").unwrap().len(), 2);
    assert!(matches!(
        store.admits(&WALOperation::DeleteVector { collection: "b".to_string(), id: 2 }),
        Err(VectorDbError::CollectionNotFound { .. })
    ));
    assert!(matches!(
        store.admits(&WALOperation::DeleteCollection("b".to_string())),
        Err(VectorDbError::CollectionNotFound { .. })
    ));
    let drop = WALOperation::DeleteCollection("a".to_string());
    assert!(store.admits(&drop).is_ok());
    store.apply(&drop, &store_kernel).unwrap();
    assert!(store.list_collections().is_empty());
    assert_eq!(store.storage().wal().len(), 5);
}
