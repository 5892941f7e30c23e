[package]
name = "klomang_mempool"
version = "0.1.0"
edition = "2021"
publish = false

[dependencies]
bincode = "1"
serde = { version = "1", features = ["derive"] }
dashmap = "5"
indexmap = "2"
parking_lot = "0.12"
arc-swap = "1"
rayon = "1"
env_logger = "*"
tokio = { version = "1", features = ["macros", "rt-multi-thread"] }
