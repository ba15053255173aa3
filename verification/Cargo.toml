[package]
name = "backup_stream"
version = "0.1.0"
edition = "2021"
publish = false

[dependencies]
bytes = "1"
dashmap = { version = "5", features = ["raw-api"] }
raft = { version = "0.7", default-features = false, features = ["protobuf-codec"] }

[dev-dependencies]
rand = "0.8"
