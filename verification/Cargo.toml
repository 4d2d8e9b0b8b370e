[package]
name = "kvdb-rs"
version = "0.1.0"
edition = "2021"
publish = false

[dependencies]
anyhow = "1"
axum = "0.7"
bytes = "1"
clap = { version = "4", features = ["derive"] }
crc16 = "0.4"
dashmap = "6"
mlua = { version = "0.10", features = ["lua54", "vendored", "send"] }
parking_lot = "0.12"
rand = "0.8"
rocksdb = "0.22"
serde = { version = "1", features = ["derive"] }
serde_yaml = "0.9"
sha1 = "0.10"
sysinfo = "0.32"
thiserror = "1"
tokio = { version = "1", features = ["full"] }
toml = "0.8"
tracing = "0.1"
tracing-subscriber = "0.3"
