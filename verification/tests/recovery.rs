use vectordb::error::VectorDbError;
use vectordb::names::NameSet;
use vectordb::recovery::{CollectionFiles, DirectoryEntry, RecoveryManager};
use vectordb::types::{CollectionConfig, DistanceMetric, IndexConfig, Vector, VectorType};
use vectordb::wal::{WALOperation, WriteAheadLog};

fn recovery_config(name: &str, dimension: usize) -> CollectionConfig {
    CollectionConfig {
        name: name.to_string(),
        dimension,
        distance_metric: DistanceMetric::Cosine,
        vector_type: VectorType::Float32,
        index_config: IndexConfig::default(),
    }
}

fn insert_op(collection: &str, len: usize) -> WALOperation {
    WALOperation::InsertVector {
        collection: collection.to_string(),
        vector: Vector {
            id: 1,
            data: vec![0.1f32.to_bits(); len],
            metadata: None,
        },
    }
}

fn internal_message(error: VectorDbError) -> String {
    match error {
        VectorDbError::Internal { message } => message,
        other => panic!("unexpected error {:?}", other),
    }
}

#[test]
fn test_discover_collections() {
    let recovery = RecoveryManager::new("/tmp/data");

    let entries = vec![DirectoryEntry {
        name: "test_collection".to_string(),
        is_dir: true,
        has_vectors_file: true,
        has_index_file: false,
    }];

    let collections = recovery.discover_existing_collections(&entries);
    assert!(collections.contains("test_collection"));
}

#[test]
fn test_validate_operations() {
    let recovery = RecoveryManager::new("/tmp/data");

    let config = recovery_config("test", 128);

    let operations = vec![
        WALOperation::CreateCollection(config.clone()),
        WALOperation::InsertVector {
            collection: "test".to_string(),
            vector: Vector {
                id: uuid::Uuid::new_v4().as_u128(),
                data: vec![0.1f32.to_bits(); 128],
                metadata: None,
            },
        },
    ];

    let validated = recovery.validate_operations(&operations, NameSet::new());
    assert_eq!(validated.len(), 2);
}

#[test]
fn discovery_needs_a_directory_with_a_data_file() {
    let recovery = RecoveryManager::new("data");
    assert_eq!(recovery.data_dir(), "data");
    let entry = |name: &str, is_dir, v, i| DirectoryEntry {
        name: name.to_string(),
        is_dir,
        has_vectors_file: v,
        has_index_file: i,
    };
    let found = recovery.discover_existing_collections(&vec![
        entry("a", true, true, false),
        entry("b", true, false, true),
        entry("c", true, false, false),
        entry("wal", false, true, true),
        entry("a", true, true, true),
    ]);
    assert!(found.contains("a"));
    assert!(found.contains("b"));
    assert!(!found.contains("c"));
    assert!(!found.contains("wal"));
    let mut names = found.to_vec();
    names.sort();
    assert_eq!(names, vec!["a".to_string(), "b".to_string()]);
}

#[test]
fn invalid_operations_are_skipped_not_fatal() {
    let recovery = RecoveryManager::new("data");
    let operations = vec![
        insert_op("ghost", 3),
        WALOperation::CreateCollection(recovery_config("a", 3)),
        WALOperation::CreateCollection(recovery_config("a", 4)),
        insert_op("a", 3),
        insert_op("a", 0),
        WALOperation::BatchInsert {
            collection: "a".to_string(),
            vectors: vec![Vector { id: 1, data: vec![1], metadata: None }, Vector { id: 2,
                data: vec![], metadata: None }],
        },
        WALOperation::DeleteVector { collection: "b".to_string(), id: 1 },
        WALOperation::DeleteCollection("a".to_string()),
        WALOperation::DeleteCollection("a".to_string()),
        insert_op("a", 3),
        WALOperation::CreateCollection(recovery_config("a", 5)),
    ];
    let valid = recovery.validate_operations(&operations, NameSet::new());
    assert_eq!(valid.len(), 4);
    assert!(matches!(&valid[0], WALOperation::CreateCollection(c) if c.dimension == 3));
    assert!(matches!(&valid[1], WALOperation::InsertVector { vector, .. } if vector.data.len() == 3));
    assert!(matches!(&valid[2], WALOperation::DeleteCollection(n) if n == "a"));
    assert!(matches!(&valid[3], WALOperation::CreateCollection(c) if c.dimension == 5));
    let again = recovery.validate_operations(&valid, NameSet::new());
    assert_eq!(again.len(), 4);
}

#[test]
fn a_directory_on_disk_does_not_stand_against_the_creation_in_the_log() {
    let recovery = RecoveryManager::new("data");
    let operations = vec![
        WALOperation::CreateCollection(recovery_config("a", 3)),
        insert_op("a", 3),
        WALOperation::CreateCollection(recovery_config("a", 4)),
    ];
    let mut existing = NameSet::new();
    existing.insert("a");
    let valid = recovery.validate_operations(&operations, existing);
    assert_eq!(valid.len(), 2);
    assert!(matches!(&valid[0], WALOperation::CreateCollection(c) if c.dimension == 3));
    assert!(matches!(&valid[1], WALOperation::InsertVector { .. }));
}

#[test]
fn a_collection_found_on_disk_is_known_to_operations_on_it() {
    let recovery = RecoveryManager::new("data");
    let operations = vec![
        insert_op("a", 3),
        insert_op("b", 3),
        WALOperation::DeleteVector { collection: "a".to_string(), id: 1 },
        WALOperation::DeleteCollection("a".to_string()),
        insert_op("a", 3),
        WALOperation::DeleteCollection("a".to_string()),
    ];
    let mut existing = NameSet::new();
    existing.insert("a");
    let valid = recovery.validate_operations(&operations, existing);
    assert_eq!(valid.len(), 3);
    assert!(matches!(&valid[0], WALOperation::InsertVector { collection, .. } if collection == "a"));
    assert!(matches!(&valid[1], WALOperation::DeleteVector { .. }));
    assert!(matches!(&valid[2], WALOperation::DeleteCollection(n) if n == "a"));
}

#[test]
fn each_objection_has_its_message() {
    let recovery = RecoveryManager::new("data");
    let mut known = NameSet::new();
    known.insert("a");
    let error = recovery
        .validate_operation(&WALOperation::CreateCollection(recovery_config("a", 3)), &mut known)
        .unwrap_err();
    assert_eq!(internal_message(error), "Collection a already exists");
    let error = recovery
        .validate_operation(&WALOperation::DeleteCollection("b".to_string()), &mut known)
        .unwrap_err();
    assert_eq!(internal_message(error), "Collection b does not exist");
    let error = recovery.validate_operation(&insert_op("b", 3), &mut known).unwrap_err();
    assert_eq!(internal_message(error), "Collection b does not exist");
    let error = recovery.validate_operation(&insert_op("a", 0), &mut known).unwrap_err();
    assert_eq!(internal_message(error), "Empty vector");
    let batch = WALOperation::BatchInsert {
        collection: "a".to_string(),
        vectors: vec![Vector { id: 2, data: vec![], metadata: None }],
    };
    let error = recovery.validate_operation(&batch, &mut known).unwrap_err();
    assert_eq!(internal_message(error), "Empty vector in batch");
    let error = recovery
        .validate_operation(&WALOperation::DeleteVector { collection: "b".to_string(), id: 1 },
            &mut known)
        .unwrap_err();
    assert_eq!(internal_message(error), "Collection b does not exist");
    assert!(known.contains("a"));
    assert!(recovery
        .validate_operation(&WALOperation::DeleteCollection("a".to_string()), &mut known)
        .is_ok());
    assert!(!known.contains("a"));
    assert!(recovery
        .validate_operation(&WALOperation::CreateCollection(recovery_config("b", 3)), &mut known)
        .is_ok());
    assert!(known.contains("b"));
}

#[test]
fn recovery_reads_the_log_and_validates_it() {
    let recovery = RecoveryManager::new("data");
    let mut wal = WriteAheadLog::new();
    assert!(recovery.recover_from_wal(&wal, NameSet::new()).is_empty());
    wal.append(&insert_op("a", 3)).unwrap();
    wal.append(&WALOperation::CreateCollection(recovery_config("a", 3))).unwrap();
    wal.append(&insert_op("a", 3)).unwrap();
    let replayed = recovery.recover_from_wal(&wal, NameSet::new());
    assert_eq!(replayed.len(), 2);
    assert!(matches!(&replayed[0], WALOperation::CreateCollection(_)));
}

#[test]
fn consistency_check_reports_missing_and_empty_files() {
    let recovery = RecoveryManager::new("data");
    let files = |name: &str, vectors_len, index_exists| CollectionFiles {
        name: name.to_string(),
        vectors_len,
        index_exists,
    };
    assert!(recovery.check_collection_consistency(&files("a", Some(10), false)).is_ok());
    assert!(recovery.check_collection_consistency(&files("a", None, true)).is_ok());
    let error = recovery.check_collection_consistency(&files("a", None, false)).unwrap_err();
    assert!(matches!(error, VectorDbError::StorageError { message } if message
        == "No data files found"));
    let error = recovery.check_collection_consistency(&files("a", Some(0), true)).unwrap_err();
    assert!(matches!(error, VectorDbError::StorageError { message } if message == "Empty vectors file"));
    let issues = recovery.check_consistency(&vec![
        files("good", Some(1), true),
        files("gone", None, false),
        files("empty", Some(0), false),
    ]);
    assert_eq!(
        issues,
        vec![
            "Collection gone: Storage error: No data files found".to_string(),
            "Collection empty: Storage error: Empty vectors file".to_string(),
        ]
    );
}
