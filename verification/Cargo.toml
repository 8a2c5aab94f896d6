[package]
name = "maxminddb_writer"
version = "0.1.0"
edition = "2021"
publish = false

[dependencies]
serde = "1"
anyhow = "1"
log = "0.4"
maxminddb = "*"
reqwest = { version = "0.12", default-features = false, features = ["stream"] }
tokio = { version = "1", features = ["rt-multi-thread", "macros", "sync", "io-util"] }
tokio-util = { version = "0.7", features = ["io"] }
futures-util = "0.3"
thiserror = "*"

[dev-dependencies]
serde_json = "1"
