[package]
name = "exa_substreams"
version = "0.1.0"
edition = "2021"
publish = false

[dependencies]
serde = { version = "1", features = ["derive"] }
serde_qs = "*"
substreams = "*"
substreams-database-change = "*"
substreams-ethereum = "*"
