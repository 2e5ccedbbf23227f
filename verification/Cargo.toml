[package]
name = "ukmmsg2json"
version = "0.1.0"
edition = "2021"
publish = false

[dependencies]
anyhow = "=1.0.104"
indexmap = { version = "=2.14.2", features = ["serde"] }
roead = { version = "=1.0.0", default-features = false, features = ["sarc"] }
serde = { version = "=1.0.229", features = ["derive"] }
serde_json = { version = "=1.0.154", features = ["float_roundtrip", "preserve_order"] }
zip = "=2.6.1"
zstd = "=0.13.4"
