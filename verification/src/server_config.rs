//! Configuration of the server.

use vstd::prelude::*;
use vstd::string::StringExecFns;
use crate::client_config::config_error;
use crate::error::VectorDbError;
use crate::names::same_text;
use crate::text::{lowercase, lowercase_of};

verus! {

/// Configuration of the server.
#[derive(Debug, Clone)]
pub struct ServerConfig {
    /// Host address.
    pub host: String,
    /// Port of the gRPC server.
    pub grpc_port: u16,
    /// Port of the REST server.
    pub rest_port: u16,
    /// Port of the metrics server.
    pub metrics_port: u16,
    /// Data directory.
    pub data_dir: String,
    /// Most concurrent connections.
    pub max_connections: usize,
    /// Request timeout in seconds.
    pub request_timeout: u64,
    /// Whether requests are logged.
    pub enable_logging: bool,
    /// Log level.
    pub log_level: String,
    /// Whether the REST server allows cross-origin requests.
    pub enable_cors: bool,
}

/// Whether a lowercase text names a log level.
pub open spec fn is_level(lowered: Seq<char>) -> bool {
    lowered == "trace"@ || lowered == "debug"@ || lowered == "info"@ || lowered == "warn"@
        || lowered == "error"@
}

/// Whether a lowercase text names a log level.
pub fn known_level(lowered: &str) -> (known: bool)
    ensures
        known == is_level(lowered@),
{
    same_text(lowered, "trace") || same_text(lowered, "debug") || same_text(lowered, "info")
        || same_text(lowered, "warn") || same_text(lowered, "error")
}

/// What is wrong with a configuration, if anything; the first of: two
/// servers on one port, no connections allowed, a timeout of 0, a log
/// level that, in lowercase, is none of `trace`, `debug`, `info`, `warn`
/// and `error`.
pub open spec fn server_config_fault(config: ServerConfig) -> Option<Seq<char>> {
    if config.grpc_port == config.rest_port || config.grpc_port == config.metrics_port
        || config.rest_port == config.metrics_port {
        Some("Ports must be unique"@)
    } else if config.max_connections == 0 {
        Some("max_connections must be greater than 0"@)
    } else if config.request_timeout == 0 {
        Some("request_timeout must be greater than 0"@)
    } else if !is_level(lowercase_of(config.log_level@)) {
        Some("Invalid log level: "@ + config.log_level@)
    } else {
        None
    }
}

impl Default for ServerConfig {
    fn default() -> (config: Self)
        ensures
            config.host@ == "127.0.0.1"@,
            config.grpc_port == 9090,
            config.rest_port == 8080,
            config.metrics_port == 9091,
            config.data_dir@ == "./data"@,
            config.max_connections == 1000,
            config.request_timeout == 30,
            config.enable_logging,
            config.log_level@ == "info"@,
            config.enable_cors,
    {
        ServerConfig {
            host: "127.0.0.1".to_string(),
            grpc_port: 9090,
            rest_port: 8080,
            metrics_port: 9091,
            data_dir: "./data".to_string(),
            max_connections: 1000,
            request_timeout: 30,
            enable_logging: true,
            log_level: "info".to_string(),
            enable_cors: true,
        }
    }
}

impl ServerConfig {
    /// Checks the configuration.
    pub fn validate(&self) -> (result: Result<(), VectorDbError>)
        ensures
            match result {
                Ok(()) => server_config_fault(*self) is None,
                Err(error) => match server_config_fault(*self) {
                    Some(text) => error.is_config_error(text),
                    None => false,
                },
            },
    {
        if self.grpc_port == self.rest_port || self.grpc_port == self.metrics_port
            || self.rest_port == self.metrics_port {
            return Err(config_error("Ports must be unique"));
        }
        if self.max_connections == 0 {
            return Err(config_error("max_connections must be greater than 0"));
        }
        if self.request_timeout == 0 {
            return Err(config_error("request_timeout must be greater than 0"));
        }
        let lowered = lowercase(self.log_level.as_str());
        if !known_level(lowered.as_str()) {
            let mut message = String::from_str("Invalid log level: ");
            message.append(self.log_level.as_str());
            return Err(config_error(message.as_str()));
        }
        Ok(())
    }
}

} // verus!
