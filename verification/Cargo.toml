[package]
name = "stream_core"
version = "0.1.0"
edition = "2021"
publish = false

[dependencies]
async-trait = "=0.1.92"
enum-as-inner = "=0.5.1"
serde = { version = "=1.0.229", features = ["derive"] }
serde_derive = "=1.0.229"
serde_json = "=1.0.154"
simd-json = "0.13"
tokio = { version = "=1.54.1", features = ["rt", "sync"] }
