[package]
name = "floodnet"
version = "0.1.0"
edition = "2021"
publish = false

[dependencies]
lru = "0.7"
uuid = { version = "1", features = ["v4"] }
bincode = "1.3"
serde = { version = "1", features = ["derive"] }
tokio = { version = "1", features = ["net", "io-util", "sync", "rt-multi-thread", "macros"] }
futures = "0.3"
regex = "1"
