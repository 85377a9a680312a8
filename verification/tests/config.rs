use vectordb::client_config::{ClientBuilder, ClientConfig, ClientProtocol};
use vectordb::error::VectorDbError;
use vectordb::server_config::{known_level, ServerConfig};
use vectordb::text::starts_with;
use vectordb::types::{CollectionConfig, DistanceMetric, IndexConfig, Vector, VectorType};

fn config_message(result: Result<(), VectorDbError>) -> String {
    match result {
        Err(VectorDbError::ConfigError { message }) => message,
        other => panic!("unexpected {:?}", other),
    }
}

#[test]
fn test_client_builder() {
    let builder = ClientBuilder::new()
        .grpc("http://localhost:9090")
        .timeout(30)
        .max_retries(3);
    let config = builder.config();

    assert_eq!(config.protocol, ClientProtocol::Grpc);
    assert_eq!(config.endpoint, "http://localhost:9090");
    assert_eq!(config.timeout_seconds, 30);
    assert_eq!(config.max_retries, 3);
}

#[test]
fn test_collection_config() {
    let config = CollectionConfig {
        name: "test_collection".to_string(),
        dimension: 128,
        distance_metric: DistanceMetric::Cosine,
        vector_type: VectorType::Float32,
        index_config: IndexConfig::default(),
    };

    assert_eq!(config.name, "test_collection");
    assert_eq!(config.dimension, 128);
    assert_eq!(config.distance_metric, DistanceMetric::Cosine);

    println!("Collection config test passed");
}

#[test]
fn index_config_defaults() {
    let config = IndexConfig::default();
    assert_eq!(config.max_connections, 16);
    assert_eq!(config.ef_construction, 200);
    assert_eq!(config.ef_search, 50);
    assert_eq!(config.max_layer, 16);
}

#[test]
fn wire_codes_round_trip_and_fall_back() {
    assert_eq!(i32::from(DistanceMetric::Cosine), 1);
    assert_eq!(i32::from(DistanceMetric::Euclidean), 2);
    assert_eq!(i32::from(DistanceMetric::DotProduct), 3);
    assert_eq!(i32::from(DistanceMetric::Manhattan), 4);
    for metric in [
        DistanceMetric::Cosine,
        DistanceMetric::Euclidean,
        DistanceMetric::DotProduct,
        DistanceMetric::Manhattan,
    ] {
        assert_eq!(DistanceMetric::from(i32::from(metric)), metric);
    }
    assert_eq!(DistanceMetric::from(0), DistanceMetric::Cosine);
    assert_eq!(DistanceMetric::from(-7), DistanceMetric::Cosine);
    assert_eq!(i32::from(VectorType::Float32), 1);
    assert_eq!(i32::from(VectorType::Float16), 2);
    assert_eq!(i32::from(VectorType::Int8), 3);
    for vtype in [VectorType::Float32, VectorType::Float16, VectorType::Int8] {
        assert_eq!(VectorType::from(i32::from(vtype)), vtype);
    }
    assert_eq!(VectorType::from(9), VectorType::Float32);
}

#[test]
fn client_config_builders_set_one_field_each() {
    let config = ClientConfig::grpc("https://db:1");
    assert_eq!(config.protocol, ClientProtocol::Grpc);
    assert_eq!(config.endpoint, "https://db:1");
    assert_eq!(config.timeout_seconds, 30);
    assert_eq!(config.max_retries, 3);
    assert_eq!(config.retry_delay_ms, 1000);
    assert!(config.enable_compression);
    assert_eq!(config.connection_pool_size, 10);
    assert_eq!(config.user_agent, "vectordb-client/0.1.0");
    let config = ClientConfig::rest("http://db:2")
        .with_timeout(5)
        .with_retries(7, 250)
        .with_compression(false)
        .with_pool_size(2)
        .with_user_agent("probe");
    assert_eq!(config.protocol, ClientProtocol::Rest);
    assert_eq!(config.endpoint, "http://db:2");
    assert_eq!(config.timeout_seconds, 5);
    assert_eq!(config.max_retries, 7);
    assert_eq!(config.retry_delay_ms, 250);
    assert!(!config.enable_compression);
    assert_eq!(config.connection_pool_size, 2);
    assert_eq!(config.user_agent, "probe");
    assert!(config.validate().is_ok());
    let rest = ClientBuilder::new().rest("http://r").config();
    assert_eq!(rest.protocol, ClientProtocol::Rest);
    assert_eq!(rest.endpoint, "http://r");
}

#[test]
fn client_config_faults_come_in_order() {
    assert!(ClientConfig::default().validate().is_ok());
    assert_eq!(
        config_message(ClientConfig::grpc("").with_timeout(0).validate()),
        "Endpoint cannot be empty"
    );
    assert_eq!(
        config_message(ClientConfig::grpc("x").with_timeout(0).with_pool_size(0).validate()),
        "Timeout must be greater than 0"
    );
    assert_eq!(
        config_message(ClientConfig::grpc("x").with_pool_size(0).validate()),
        "Connection pool size must be greater than 0"
    );
    assert_eq!(
        config_message(ClientConfig::grpc("ftp://x").validate()),
        "gRPC endpoint must start with http:// or https://"
    );
    assert_eq!(
        config_message(ClientConfig::rest("localhost").validate()),
        "REST endpoint must start with http:// or https://"
    );
    assert!(ClientConfig::rest("https://").validate().is_ok());
    assert!(starts_with("http://é", "http://"));
    assert!(!starts_with("http:/", "http://"));
    assert!(starts_with("abc", ""));
}

#[test]
fn server_config_faults_come_in_order() {
    let good = ServerConfig::default();
    assert_eq!(good.host, "127.0.0.1");
    assert_eq!((good.grpc_port, good.rest_port, good.metrics_port), (9090, 8080, 9091));
    assert_eq!(good.data_dir, "./data");
    assert_eq!(good.max_connections, 1000);
    assert_eq!(good.request_timeout, 30);
    assert!(good.enable_logging && good.enable_cors);
    assert!(good.validate().is_ok());
    let mut config = ServerConfig::default();
    config.rest_port = 9090;
    config.max_connections = 0;
    assert_eq!(config_message(config.validate()), "Ports must be unique");
    let mut config = ServerConfig::default();
    config.metrics_port = 8080;
    assert_eq!(config_message(config.validate()), "Ports must be unique");
    let mut config = ServerConfig::default();
    config.max_connections = 0;
    config.request_timeout = 0;
    assert_eq!(config_message(config.validate()), "max_connections must be greater than 0");
    let mut config = ServerConfig::default();
    config.request_timeout = 0;
    config.log_level = "loud".to_string();
    assert_eq!(config_message(config.validate()), "request_timeout must be greater than 0");
    let mut config = ServerConfig::default();
    config.log_level = "Loud".to_string();
    assert_eq!(config_message(config.validate()), "Invalid log level: Loud");
    for level in ["TRACE", "Debug", "info", "WaRn", "ERROR"] {
        let mut config = ServerConfig::default();
        config.log_level = level.to_string();
        assert!(config.validate().is_ok());
    }
    assert!(known_level("warn"));
    assert!(!known_level("WARN"));
}

#[test]
fn errors_have_their_texts() {
    let cases: Vec<(VectorDbError, &str)> = vec![
        (VectorDbError::Io("disk".to_string()), "IO error: disk"),
        (
            VectorDbError::Serialization("bad frame".to_string()),
            "Serialization error: bad frame",
        ),
        (
            VectorDbError::InvalidDimension {
                expected: 128,
                actual: 0,
            },
            "Invalid vector dimension: expected 128, got 0",
        ),
        (
            VectorDbError::InvalidDimension {
                expected: 7,
                actual: 1_000_209,
            },
            "Invalid vector dimension: expected 7, got 1000209",
        ),
        (
            VectorDbError::VectorNotFound {
                id: "abc".to_string(),
            },
            "Vector not found: abc",
        ),
        (
            VectorDbError::CollectionNotFound {
                name: "c1".to_string(),
            },
            "Collection not found: c1",
        ),
        (
            VectorDbError::CollectionAlreadyExists {
                name: "c1".to_string(),
            },
            "Collection already exists: c1",
        ),
        (
            VectorDbError::InvalidDistanceMetric {
                metric: "hamming".to_string(),
            },
            "Invalid distance metric: hamming",
        ),
        (
            VectorDbError::IndexError {
                message: "m".to_string(),
            },
            "Index error: m",
        ),
        (
            VectorDbError::StorageError {
                message: "m".to_string(),
            },
            "Storage error: m",
        ),
        (
            VectorDbError::NetworkError {
                message: "m".to_string(),
            },
            "Network error: m",
        ),
        (
            VectorDbError::ConfigError {
                message: "m".to_string(),
            },
            "Configuration error: m",
        ),
        (
            VectorDbError::Internal {
                message: "m".to_string(),
            },
            "Internal error: m",
        ),
    ];
    for (error, text) in cases {
        assert_eq!(error.message(), text);
    }
    assert_eq!(vectordb::error::decimal_text(usize::MAX), usize::MAX.to_string());
    assert_eq!(vectordb::error::decimal_text(10), "10");
}

#[test]
fn test_basic_vector_operations() {
    let vector_id = uuid::Uuid::new_v4().as_u128();
    let vector_data: Vec<u32> = [1.0f32, 2.0, 3.0].iter().map(|x| x.to_bits()).collect();

    let vector = Vector {
        id: vector_id,
        data: vector_data.clone(),
        metadata: None,
    };

    assert_eq!(vector.id, vector_id);
    assert_eq!(vector.data, vector_data);
    assert!(vector.metadata.is_none());

    println!("Basic vector operations test passed");
}
