[package]
name = "pirc-server"
version = "0.1.0"
edition = "2021"
publish = false

[dependencies]
dashmap = "6"
serde = { version = "1", features = ["derive"] }
serde_json = "1"
thiserror = "2"
tokio = { version = "1", features = ["sync", "time", "rt", "rt-multi-thread", "macros", "fs", "io-util"] }
tracing = "0.1"
