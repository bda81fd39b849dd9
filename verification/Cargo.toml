[package]
name = "memo_cache"
version = "0.1.0"
edition = "2021"
publish = false

[dependencies]
dashmap = "*"
log = "*"
parking_lot = "*"
serde = { version = "*", features = ["derive"] }
serde_json = "*"
tokio = { version = "*", features = ["rt", "rt-multi-thread", "time", "fs", "macros"] }
