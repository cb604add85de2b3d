[package]
name = "chronix"
version = "0.1.0"
edition = "2021"
publish = false

[dependencies]
arrow = { version = "59", default-features = false }
fnv = "1"
futures = "0.3"
openraft = { version = "0.9", features = ["serde", "storage-v2"] }
parking_lot = "0.12"
postcard = { version = "1", features = ["use-std"] }
redb = "*"
serde = { version = "1", features = ["derive"] }
serde_json = "1"
thiserror = "*"
tokio = { version = "1", features = ["sync", "rt", "time", "macros"] }
tonic = "0.14"
tracing = "0.1"
