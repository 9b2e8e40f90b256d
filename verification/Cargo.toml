[package]
name = "tokio_fluent"
version = "0.1.0"
edition = "2021"
publish = false

[dependencies]
tokio = { version = "*", features = ["sync", "net", "time", "io-util", "rt", "rt-multi-thread"] }
uuid = { version = "*", features = ["v4"] }
base64 = "*"
chrono = "*"
log = "*"
