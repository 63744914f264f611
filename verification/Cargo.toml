[package]
name = "rudurru"
version = "0.1.0"
edition = "2021"
publish = false

[dependencies]
anyhow = "1"
etcd-client = "*"
parking_lot = "0.12"
prost = "0.14"
rand = "0.8"
rusqlite = "*"
serde_json = "1"
tokio = { version = "1", features = ["macros", "rt-multi-thread", "time", "sync", "signal", "net"] }
tokio-stream = { version = "0.1", features = ["sync"] }
tonic = "0.14"
tonic-prost = "0.14"
tracing = "0.1"
tracing-subscriber = { version = "0.3", features = ["env-filter"] }
xxhash-rust = { version = "0.8", features = ["xxh3"] }
