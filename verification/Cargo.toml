[package]
name = "raft_storage"
version = "0.1.0"
edition = "2021"
publish = false

[dependencies]
serde = { version = "1", features = ["derive"] }
tokio = { version = "1", features = ["io-util"] }
async-trait = "0.1"
tracing = "0.1"
