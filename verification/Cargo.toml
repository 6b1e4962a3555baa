[package]
name = "cortex_fusion"
version = "0.1.0"
edition = "2021"
publish = false

[dependencies]
anyhow = "=1.0.104"
serde = { version = "=1.0.229", features = ["derive"] }
tracel-xtask = { version = "=5.3.0", default-features = false, features = ["doc", "utils-helpers"] }
