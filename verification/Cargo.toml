[package]
name = "reconciliation_simulator"
version = "0.1.0"
edition = "2021"
publish = false

[dependencies]
bitvec = "1"
rand = "0.10"
serde = { version = "1", features = ["derive"] }
serde_json = "1"
toml = "0.9"
