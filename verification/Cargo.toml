[package]
name = "prover_bridge"
version = "0.1.0"
edition = "2021"
publish = false

[dependencies]
memchr = "=2.8.3"
serde = { version = "=1.0.229", features = ["derive"] }
serde_json = "=1.0.151"
tokio = { version = "=1.53.2", features = ["sync"] }
async-io = "=2.6.0"
