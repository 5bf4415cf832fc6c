[package]
name = "rsk"
version = "0.1.0"
edition = "2021"
publish = false

[dependencies]
serde = { version = "1", features = ["derive"] }
serde_json = "1"
serde_yaml = "0.9"
uuid = { version = "1", features = ["v4"] }
chrono = "0.4"
thiserror = "1"
walkdir = "2"
statrs = "0.17"
tracing = "0.1"
dashmap = "5"
tokio = { version = "1", features = ["rt", "net", "io-util", "sync", "macros"] }
