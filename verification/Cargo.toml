[package]
name = "drpc"
version = "0.1.0"
edition = "2021"
publish = false

[dependencies]
rand = "0.8"
tokio = { version = "1", features = ["net", "rt", "rt-multi-thread", "io-util", "time", "sync", "macros"] }
serde = { version = "1", features = ["derive"] }
serde_json = "1"
bincode = "1"
