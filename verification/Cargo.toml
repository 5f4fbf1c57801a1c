[package]
name = "graph"
version = "0.1.0"
edition = "2021"
publish = false

[dependencies]
anyhow = "1"
ignore = "0.4"
jsonrpsee = { version = "0.24", features = ["async-client"] }
kurbo = "0.11"
lsp-types = "0.97"
serde = { version = "1", features = ["derive"] }
serde_json = "1"
thiserror = "1"
tokio = { version = "1", features = ["process", "io-util", "sync", "rt-multi-thread", "macros"] }
