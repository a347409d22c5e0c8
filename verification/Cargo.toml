[package]
name = "router_sandbox"
version = "0.1.0"
edition = "2021"
publish = false

[dependencies]
async-trait = "*"
dynamo-kv-router = "*"
indexmap = "2"
lru = "*"
parking_lot = "0.12"
serde = { version = "1", features = ["derive"] }
thiserror = "2"
tokio = { version = "1", features = ["rt", "sync", "time"] }
tracing = "0.1"
