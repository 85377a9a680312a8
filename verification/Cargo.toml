[package]
name = "vectordb"
version = "0.1.0"
edition = "2021"
publish = false

[dependencies]
anyhow = "=1.0.104"
bincode = "=1.3.3"
byteorder = "1"
clap = { version = "=4.6.7", features = ["derive"] }
memmap2 = "=0.9.12"
metrics = "=0.22.4"
parking_lot = "=0.12.5"
rand = "=0.8.8"
serde = { version = "=1.0.229", features = ["derive"] }
serde_json = "=1.0.154"
serde_yaml = "=0.9.34"
thiserror = "=1.0.69"
tokio = { version = "=1.54.1", features = ["fs", "io-util", "macros", "rt-multi-thread", "sync"] }
tracing = "=0.1.44"
tracing-subscriber = "=0.3.23"
uuid = { version = "=1.29.0", features = ["v4", "serde"] }
