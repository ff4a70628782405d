[package]
name = "fs2db"
version = "0.1.0"
edition = "2021"
publish = false

[dependencies]
async-compression = { version = "0.4", features = ["tokio", "gzip"] }
futures = "0.3"
serde_json = "1"
tokio = { version = "1", features = ["fs", "io-util", "macros", "rt", "rt-multi-thread", "sync"] }
tokio-stream = { version = "0.1", features = ["io-util"] }
tonic = "0.10"
