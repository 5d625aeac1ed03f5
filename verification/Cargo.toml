[package]
name = "identity_ledger"
version = "0.1.0"
edition = "2021"
publish = false

[dependencies]
parity-scale-codec = { version = "=3.7.5", features = ["derive"] }
serde = { version = "=1.0.229", features = ["derive"] }
sp-core = { version = "=43.0.0", features = ["serde"] }
sp-runtime = { version = "=49.0.0", features = ["serde"] }
