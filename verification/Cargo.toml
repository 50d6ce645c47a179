[package]
name = "reth-usdc-indexer"
version = "0.1.0"
edition = "2021"
publish = false

[dependencies]
alloy-primitives = "~1.4"
eyre = "0.6"
rusqlite = { version = "0.37", features = ["bundled"] }
tracing = "0.1"
