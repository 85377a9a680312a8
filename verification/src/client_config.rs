//! Configuration of a client.

use vstd::prelude::*;
use crate::error::VectorDbError;
use crate::names::text_of;
use crate::text::starts_with;

verus! {

/// Protocol by which a client reaches the server.
#[derive(Debug, Clone, Copy, PartialEq, Eq, Structural)]
pub enum ClientProtocol {
    Grpc,
    Rest,
}

/// Configuration of a client.
#[derive(Debug, Clone)]
pub struct ClientConfig {
    /// Protocol to use.
    pub protocol: ClientProtocol,
    /// Server endpoint.
    pub endpoint: String,
    /// Request timeout in seconds.
    pub timeout_seconds: u64,
    /// Maximum number of retries.
    pub max_retries: u32,
    /// Delay between retries in milliseconds.
    pub retry_delay_ms: u64,
    /// Whether requests are compressed.
    pub enable_compression: bool,
    /// Size of the connection pool.
    pub connection_pool_size: usize,
    /// User agent string.
    pub user_agent: String,
}

/// Mathematical value of a `ClientConfig`.
pub struct ClientConfigView {
    pub protocol: ClientProtocol,
    pub endpoint: Seq<char>,
    pub timeout_seconds: u64,
    pub max_retries: u32,
    pub retry_delay_ms: u64,
    pub enable_compression: bool,
    pub connection_pool_size: usize,
    pub user_agent: Seq<char>,
}

impl View for ClientConfig {
    type V = ClientConfigView;

    open spec fn view(&self) -> ClientConfigView {
        ClientConfigView {
            protocol: self.protocol,
            endpoint: self.endpoint@,
            timeout_seconds: self.timeout_seconds,
            max_retries: self.max_retries,
            retry_delay_ms: self.retry_delay_ms,
            enable_compression: self.enable_compression,
            connection_pool_size: self.connection_pool_size,
            user_agent: self.user_agent@,
        }
    }
}

/// The configuration that `Default` gives.
pub open spec fn default_client_config() -> ClientConfigView {
    ClientConfigView {
        protocol: ClientProtocol::Grpc,
        endpoint: "http://localhost:9090"@,
        timeout_seconds: 30,
        max_retries: 3,
        retry_delay_ms: 1000,
        enable_compression: true,
        connection_pool_size: 10,
        user_agent: "vectordb-client/0.1.0"@,
    }
}

/// Whether an endpoint names its scheme.
pub open spec fn has_http_scheme(endpoint: Seq<char>) -> bool {
    "http://"@.is_prefix_of(endpoint) || "https://"@.is_prefix_of(endpoint)
}

/// What is wrong with a configuration, if anything; the first of: an empty
/// endpoint, a timeout of 0, a pool of size 0, an endpoint without
/// `http://` or `https://`.
pub open spec fn client_config_fault(config: ClientConfigView) -> Option<Seq<char>> {
    if config.endpoint.len() == 0 {
        Some("Endpoint cannot be empty"@)
    } else if config.timeout_seconds == 0 {
        Some("Timeout must be greater than 0"@)
    } else if config.connection_pool_size == 0 {
        Some("Connection pool size must be greater than 0"@)
    } else if !has_http_scheme(config.endpoint) {
        match config.protocol {
            ClientProtocol::Grpc => Some("gRPC endpoint must start with http:// or https://"@),
            ClientProtocol::Rest => Some("REST endpoint must start with http:// or https://"@),
        }
    } else {
        None
    }
}

impl Default for ClientConfig {
    fn default() -> (config: Self)
        ensures
            config@ == default_client_config(),
    {
        ClientConfig {
            protocol: ClientProtocol::Grpc,
            endpoint: "http://localhost:9090".to_string(),
            timeout_seconds: 30,
            max_retries: 3,
            retry_delay_ms: 1000,
            enable_compression: true,
            connection_pool_size: 10,
            user_agent: "vectordb-client/0.1.0".to_string(),
        }
    }
}

impl ClientConfig {
    /// The default configuration for gRPC at `endpoint`.
    pub fn grpc(endpoint: &str) -> (config: Self)
        ensures
            config@ == (ClientConfigView {
                protocol: ClientProtocol::Grpc,
                endpoint: endpoint@,
                ..default_client_config()
            }),
    {
        let mut config = ClientConfig::default();
        config.protocol = ClientProtocol::Grpc;
        config.endpoint = text_of(endpoint);
        config
    }

    /// The default configuration for REST at `endpoint`.
    pub fn rest(endpoint: &str) -> (config: Self)
        ensures
            config@ == (ClientConfigView {
                protocol: ClientProtocol::Rest,
                endpoint: endpoint@,
                ..default_client_config()
            }),
    {
        let mut config = ClientConfig::default();
        config.protocol = ClientProtocol::Rest;
        config.endpoint = text_of(endpoint);
        config
    }

    /// With another timeout.
    pub fn with_timeout(self, timeout_seconds: u64) -> (config: Self)
        ensures
            config@ == (ClientConfigView { timeout_seconds, ..self@ }),
    {
        let mut config = self;
        config.timeout_seconds = timeout_seconds;
        config
    }

    /// With another number of retries and delay between them.
    pub fn with_retries(self, max_retries: u32, delay_ms: u64) -> (config: Self)
        ensures
            config@ == (ClientConfigView { max_retries, retry_delay_ms: delay_ms, ..self@ }),
    {
        let mut config = self;
        config.max_retries = max_retries;
        config.retry_delay_ms = delay_ms;
        config
    }

    /// With compression on or off.
    pub fn with_compression(self, enable: bool) -> (config: Self)
        ensures
            config@ == (ClientConfigView { enable_compression: enable, ..self@ }),
    {
        let mut config = self;
        config.enable_compression = enable;
        config
    }

    /// With another size of the connection pool.
    pub fn with_pool_size(self, size: usize) -> (config: Self)
        ensures
            config@ == (ClientConfigView { connection_pool_size: size, ..self@ }),
    {
        let mut config = self;
        config.connection_pool_size = size;
        config
    }

    /// With another user agent.
    pub fn with_user_agent(self, user_agent: &str) -> (config: Self)
        ensures
            config@ == (ClientConfigView { user_agent: user_agent@, ..self@ }),
    {
        let mut config = self;
        config.user_agent = text_of(user_agent);
        config
    }

    /// Checks the configuration.
    pub fn validate(&self) -> (result: Result<(), VectorDbError>)
        ensures
            match result {
                Ok(()) => client_config_fault(self@) is None,
                Err(error) => match client_config_fault(self@) {
                    Some(text) => error.is_config_error(text),
                    None => false,
                },
            },
    {
        if self.endpoint.as_str().is_empty() {
            return Err(config_error("Endpoint cannot be empty"));
        }
        if self.timeout_seconds == 0 {
            return Err(config_error("Timeout must be greater than 0"));
        }
        if self.connection_pool_size == 0 {
            return Err(config_error("Connection pool size must be greater than 0"));
        }
        let named = starts_with(self.endpoint.as_str(), "http://") || starts_with(
            self.endpoint.as_str(),
            "https://",
        );
        match self.protocol {
            ClientProtocol::Grpc => {
                if !named {
                    return Err(
                        config_error("gRPC endpoint must start with http:// or https://"),
                    );
                }
            },
            ClientProtocol::Rest => {
                if !named {
                    return Err(
                        config_error("REST endpoint must start with http:// or https://"),
                    );
                }
            },
        }
        Ok(())
    }
}

/// A configuration error with the given text.
pub fn config_error(text: &str) -> (error: VectorDbError)
    ensures
        error.is_config_error(text@),
{
    VectorDbError::ConfigError { message: text_of(text) }
}

/// A builder of client configurations.
pub struct ClientBuilder {
    config: ClientConfig,
}

impl ClientBuilder {
    /// The configuration built so far.
    pub closed spec fn spec_config(&self) -> ClientConfigView {
        self.config@
    }

    /// A builder that starts from the default configuration.
    pub fn new() -> (builder: Self)
        ensures
            builder.spec_config() == default_client_config(),
    {
        ClientBuilder { config: ClientConfig::default() }
    }

    /// For gRPC at `endpoint`.
    pub fn grpc(self, endpoint: &str) -> (builder: Self)
        ensures
            builder.spec_config() == (ClientConfigView {
                protocol: ClientProtocol::Grpc,
                endpoint: endpoint@,
                ..self.spec_config()
            }),
    {
        let mut builder = self;
        builder.config.protocol = ClientProtocol::Grpc;
        builder.config.endpoint = text_of(endpoint);
        builder
    }

    /// For REST at `endpoint`.
    pub fn rest(self, endpoint: &str) -> (builder: Self)
        ensures
            builder.spec_config() == (ClientConfigView {
                protocol: ClientProtocol::Rest,
                endpoint: endpoint@,
                ..self.spec_config()
            }),
    {
        let mut builder = self;
        builder.config.protocol = ClientProtocol::Rest;
        builder.config.endpoint = text_of(endpoint);
        builder
    }

    /// With another timeout.
    pub fn timeout(self, timeout_seconds: u64) -> (builder: Self)
        ensures
            builder.spec_config() == (ClientConfigView { timeout_seconds, ..self.spec_config() }),
    {
        let mut builder = self;
        builder.config.timeout_seconds = timeout_seconds;
        builder
    }

    /// With another number of retries.
    pub fn max_retries(self, max_retries: u32) -> (builder: Self)
        ensures
            builder.spec_config() == (ClientConfigView { max_retries, ..self.spec_config() }),
    {
        let mut builder = self;
        builder.config.max_retries = max_retries;
        builder
    }

    /// The configuration built.
    pub fn config(self) -> (config: ClientConfig)
        ensures
            config@ == self.spec_config(),
    {
        self.config
    }
}

} // verus!
