use vectordb::frame::{decode_frames, encode_frame, next_frame};
use vectordb::mmap::{grown_size, initial_size, needs_growth, window_in_bounds, MMapStorage,
    INITIAL_SIZE};
use vectordb::types::{CollectionConfig, DistanceMetric, IndexConfig, Vector, VectorType};
use vectordb::wal::{WALEntry, WALOperation, WriteAheadLog};

fn storage_config(name: &str, dimension: usize) -> CollectionConfig {
    CollectionConfig {
        name: name.to_string(),
        dimension,
        distance_metric: DistanceMetric::Cosine,
        vector_type: VectorType::Float32,
        index_config: IndexConfig::default(),
    }
}

#[test]
fn test_mmap_storage() {
    let mut storage = MMapStorage::new(Vec::new());

    let data = b"Hello, World!";
    let offset = storage.append(data);
    assert_eq!(offset, 0);

    let read_data = storage.read(0, data.len()).unwrap();
    assert_eq!(read_data, data);

    let size = storage.size();
    assert_eq!(size, INITIAL_SIZE);
}

#[test]
fn test_storage_growth() {
    let mut storage = MMapStorage::new(Vec::new());

    let large_data = vec![42u8; (INITIAL_SIZE + 1000) as usize];
    storage.append(&large_data);

    let size = storage.size();
    assert!(size > INITIAL_SIZE);
    assert_eq!(size, 2 * (INITIAL_SIZE + 1000));
    assert_eq!(storage.position(), INITIAL_SIZE + 1000);
    assert_eq!(storage.read(INITIAL_SIZE + 999, 2).unwrap(), vec![42u8, 0]);
}

#[test]
fn test_wal_operations() {
    let mut wal = WriteAheadLog::new();

    let config = storage_config("test", 128);

    let op = WALOperation::CreateCollection(config);
    wal.append(&op).unwrap();

    let operations = wal.read_all();
    assert_eq!(operations.len(), 1);

    match &operations[0] {
        WALOperation::CreateCollection(c) => {
            assert_eq!(c.name, "test");
        }
        _ => panic!("Unexpected operation type"),
    }
}

#[test]
fn wal_reads_back_what_was_appended_in_order() {
    let mut wal = WriteAheadLog::new();
    let vector = Vector {
        id: 7,
        data: vec![1, 2, 3],
        metadata: None,
    };
    let ops = vec![
        WALOperation::CreateCollection(storage_config("a", 3)),
        WALOperation::InsertVector {
            collection: "a".to_string(),
            vector: vector.clone(),
        },
        WALOperation::BatchInsert {
            collection: "a".to_string(),
            vectors: vec![vector.clone(), vector.clone()],
        },
        WALOperation::DeleteVector {
            collection: "a".to_string(),
            id: 7,
        },
        WALOperation::DeleteCollection("a".to_string()),
    ];
    for op in &ops {
        wal.append(op).unwrap();
    }
    assert_eq!(wal.len(), 5);
    let read = wal.read_all();
    assert_eq!(read.len(), 5);
    assert!(matches!(&read[0], WALOperation::CreateCollection(c) if c.name == "a" && c.dimension == 3));
    assert!(matches!(&read[1], WALOperation::InsertVector { collection, vector: v } if collection
        == "a" && *v == vector));
    assert!(matches!(&read[2], WALOperation::BatchInsert { collection, vectors } if collection
        == "a" && vectors.len() == 2 && vectors[1] == vector));
    assert!(matches!(&read[3], WALOperation::DeleteVector { collection, id: 7 } if collection == "a"));
    assert!(matches!(&read[4], WALOperation::DeleteCollection(name) if name == "a"));
    wal.truncate();
    assert_eq!(wal.len(), 0);
    assert!(wal.read_all().is_empty());
}

#[test]
fn wal_entries_carry_checksum_zero() {
    let entry = WALEntry::new(9, 1234, WALOperation::DeleteCollection("x".to_string()));
    assert_eq!(entry.id, 9);
    assert_eq!(entry.timestamp, 1234);
    assert_eq!(entry.checksum, 0);
    let log = WriteAheadLog::from_entries(vec![entry]);
    assert_eq!(log.len(), 1);
}

#[test]
fn frames_round_trip() {
    let payloads: Vec<Vec<u8>> = vec![b"alpha".to_vec(), Vec::new(), vec![0xff; 300], b"z".to_vec()];
    let mut log = Vec::new();
    for p in &payloads {
        log.extend_from_slice(&encode_frame(p));
    }
    assert_eq!(decode_frames(&log), payloads);
    assert_eq!(encode_frame(b"abc"), vec![3, 0, 0, 0, b'a', b'b', b'c']);
    assert_eq!(encode_frame(&vec![1u8; 258])[..4], [2, 1, 0, 0]);
}

#[test]
fn a_torn_tail_is_dropped() {
    let mut log = Vec::new();
    log.extend_from_slice(&encode_frame(b"first"));
    log.extend_from_slice(&encode_frame(b"second"));
    let whole = log.len();
    log.extend_from_slice(&encode_frame(b"third"));
    for cut in whole..log.len() {
        let read = decode_frames(&log[..cut]);
        assert_eq!(read, vec![b"first".to_vec(), b"second".to_vec()]);
    }
    assert_eq!(decode_frames(&log).len(), 3);
    assert!(decode_frames(&[]).is_empty());
    assert!(decode_frames(&[1, 0, 0]).is_empty());
    assert_eq!(next_frame(&log, 0, log.len()), Some((4, 5)));
    assert_eq!(next_frame(&log, 9, log.len()), Some((13, 6)));
    assert_eq!(next_frame(&log, 0, 8), None);
}

#[test]
fn appended_bytes_are_read_at_the_returned_offset() {
    let mut storage = MMapStorage::new(Vec::new());
    let first = storage.append(b"abc");
    let second = storage.append(b"defgh");
    assert_eq!((first, second), (0, 3));
    assert_eq!(storage.position(), 8);
    assert_eq!(storage.read(second, 5).unwrap(), b"defgh");
    assert_eq!(storage.read(first, 3).unwrap(), b"abc");
    assert_eq!(storage.read(1, 4).unwrap(), b"bcde");
    let error = storage.read(INITIAL_SIZE - 1, 2).unwrap_err();
    assert!(matches!(
        error,
        vectordb::error::VectorDbError::StorageError { message } if message
            == "Read beyond file boundary"
    ));
    assert!(storage.read(u64::MAX, 1).is_err());
    assert_eq!(storage.read(INITIAL_SIZE - 1, 1).unwrap(), vec![0]);
}

#[test]
fn the_cursor_yields_the_records_that_were_appended() {
    let mut storage = MMapStorage::new(Vec::new());
    let records: Vec<Vec<u8>> = vec![b"one".to_vec(), b"".to_vec(), b"three".to_vec()];
    for r in &records {
        storage.append(&encode_frame(r));
    }
    let mut cursor = storage.iter();
    let mut read = Vec::new();
    while let Some(record) = cursor.next() {
        read.push(record);
    }
    assert_eq!(read, records);
    assert_eq!(cursor.next(), None);

    let mut torn = MMapStorage::new(Vec::new());
    torn.append(&encode_frame(b"whole"));
    torn.append(&[9, 0, 0, 0, 1, 2]);
    let mut cursor = torn.iter();
    assert_eq!(cursor.next(), Some(b"whole".to_vec()));
    assert_eq!(cursor.next(), None);
}

#[test]
fn an_existing_file_is_mapped_at_its_length() {
    let storage = MMapStorage::new(vec![5u8; 10]);
    assert_eq!(storage.size(), 10);
    assert_eq!(storage.position(), 0);
    let mut storage = storage;
    let offset = storage.append(&[1u8; 11]);
    assert_eq!(offset, 0);
    assert_eq!(storage.size(), 22);
    assert_eq!(storage.read(9, 4).unwrap(), vec![1, 1, 0, 0]);
}

#[test]
fn growth_rules() {
    assert_eq!(initial_size(0), 1024 * 1024);
    assert_eq!(initial_size(77), 77);
    assert!(!needs_growth(10, 20, 10));
    assert!(needs_growth(10, 20, 11));
    assert!(needs_growth(u64::MAX, 20, 1));
    assert_eq!(grown_size(10, 11), 42);
    assert!(window_in_bounds(5, 5, 10));
    assert!(!window_in_bounds(5, 6, 10));
    assert!(!window_in_bounds(11, 0, 10));
    assert!(window_in_bounds(10, 0, 10));
}

fn name_codec_encode(entry: &WALEntry) -> Vec<u8> {
    let mut bytes = entry.id.to_be_bytes().to_vec();
    bytes.extend_from_slice(&entry.timestamp.to_le_bytes());
    match &entry.operation {
        WALOperation::DeleteCollection(name) => bytes.extend_from_slice(name.as_bytes()),
        _ => bytes.clear(),
    }
    bytes
}

fn name_codec_decode(payload: &Vec<u8>) -> Option<WALEntry> {
    if payload.len() < 24 {
        return None;
    }
    let mut id = [0u8; 16];
    id.copy_from_slice(&payload[..16]);
    let mut timestamp = [0u8; 8];
    timestamp.copy_from_slice(&payload[16..24]);
    let name = String::from_utf8(payload[24..].to_vec()).ok()?;
    Some(WALEntry::new(
        u128::from_be_bytes(id),
        u64::from_le_bytes(timestamp),
        WALOperation::DeleteCollection(name),
    ))
}

#[test]
fn the_log_goes_to_bytes_and_back() {
    let entries = vec![
        WALEntry::new(1, 10, WALOperation::DeleteCollection("a".to_string())),
        WALEntry::new(2, 20, WALOperation::DeleteCollection("".to_string())),
        WALEntry::new(u128::MAX, 30, WALOperation::DeleteCollection("third".to_string())),
    ];
    let log = WriteAheadLog::from_entries(entries);
    let bytes = log.to_bytes(&name_codec_encode).unwrap();
    assert_eq!(bytes.len(), 3 * (4 + 24) + 1 + 0 + 5);
    assert_eq!(bytes[..4], [25, 0, 0, 0]);
    let back = WriteAheadLog::from_bytes(&bytes, &name_codec_decode).unwrap();
    assert_eq!(back.len(), 3);
    let ops = back.read_all();
    assert!(matches!(&ops[0], WALOperation::DeleteCollection(n) if n == "a"));
    assert!(matches!(&ops[1], WALOperation::DeleteCollection(n) if n.is_empty()));
    assert!(matches!(&ops[2], WALOperation::DeleteCollection(n) if n == "third"));
    let torn = WriteAheadLog::from_bytes(&bytes[..bytes.len() - 1], &name_codec_decode).unwrap();
    assert_eq!(torn.len(), 2);
    let empty = WriteAheadLog::from_bytes(&[], &name_codec_decode).unwrap();
    assert_eq!(empty.len(), 0);
    assert_eq!(WriteAheadLog::new().to_bytes(&name_codec_encode).unwrap(), Vec::<u8>::new());
}

#[test]
fn a_payload_that_cannot_be_read_is_reported() {
    let log = WriteAheadLog::from_entries(vec![
        WALEntry::new(1, 10, WALOperation::DeleteCollection("a".to_string())),
        WALEntry::new(2, 20, WALOperation::CreateCollection(storage_config("b", 2))),
    ]);
    let bytes = log.to_bytes(&name_codec_encode).unwrap();
    let error = match WriteAheadLog::from_bytes(&bytes, &name_codec_decode) {
        Ok(_) => panic!("the second payload is empty"),
        Err(error) => error,
    };
    assert!(matches!(
        error,
        vectordb::error::VectorDbError::Serialization(message) if message == "malformed entry"
    ));
}

#[test]
fn the_size_of_the_log_is_the_size_of_its_file() {
    let mut log = WriteAheadLog::new();
    assert_eq!(log.size(&name_codec_encode).unwrap(), 0);
    log.append(&WALOperation::DeleteCollection("abc".to_string())).unwrap();
    log.sync();
    assert_eq!(log.size(&name_codec_encode).unwrap(), 4 + 24 + 3);
    let entry = &log.read_all()[0];
    assert!(matches!(entry, WALOperation::DeleteCollection(n) if n == "abc"));
}

#[test]
fn an_entry_is_appended_with_the_identifier_and_time_given() {
    let mut log = WriteAheadLog::new();
    log.append_entry(7, 1_700_000_000, &WALOperation::DeleteCollection("a".to_string()));
    log.append(&WALOperation::DeleteCollection("b".to_string())).unwrap();
    assert_eq!(log.len(), 2);
    let ops = log.read_all();
    assert!(matches!(&ops[0], WALOperation::DeleteCollection(n) if n == "a"));
    assert!(matches!(&ops[1], WALOperation::DeleteCollection(n) if n == "b"));
}
