[package]
name = "distributed_kv"
version = "0.1.0"
edition = "2021"
publish = false

[dependencies]
serde_json = "1"
serde = { version = "1", features = ["derive"] }
openraft = { version = "*", features = ["serde"] }
tokio = { version = "1", features = ["full"] }
tonic = "*"
async-trait = "*"
