[package]
name = "temporary_store"
version = "0.1.0"
edition = "2021"
publish = false

[dependencies]
anyhow = "1"
async-trait = "0.1"
bcs = "0.1"
jsonrpsee = { version = "0.16", default-features = false, features = ["http-client"] }
move-core-types = "0.0.3"
serde = { version = "1", features = ["derive"] }
serde_with = "2"
tracing = "0.1"
