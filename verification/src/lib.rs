//! Verified core of a vector database: an HNSW proximity graph, the framing
//! and growth rules of its durable storage, write-ahead-log validation, and
//! the coordinator that keeps collections and indexes consistent.
//!
//! Vector components and distances are IEEE-754 binary32 values carried as
//! their `u32` bit patterns; the distance kernel itself is supplied by the
//! caller.

pub mod blob;
pub mod client_config;
pub mod distance;
pub mod error;
pub mod frame;
pub mod hnsw;
pub mod hnsw_laws;
pub mod ids;
pub mod index;
pub mod mmap;
pub mod names;
pub mod node;
pub mod ordering;
pub mod random;
pub mod recovery;
pub mod registry;
pub mod server_config;
pub mod stamp;
pub mod storage;
pub mod text;
pub mod types;
pub mod vectorstore;
pub mod wal;
