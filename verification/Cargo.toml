[package]
name = "matching_engine"
version = "0.1.0"
edition = "2021"
publish = false

[dependencies]
socket2 = { version = "0.6", features = ["all"] }
tokio = { version = "1", features = ["io-util", "net", "rt", "sync"] }
