[package]
name = "tperf"
version = "0.1.0"
edition = "2021"
publish = false

[dependencies]
anyhow = "1"
libc = "0.2"
rusqlite = "0.31"
serde = { version = "1", features = ["derive"] }
serde_json = "1"
socket2 = { version = "0.5", features = ["all"] }
tokio = { version = "1", features = ["full"] }
tokio-util = "0.7"
toml = "0.8"
