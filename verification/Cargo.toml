[package]
name = "pubsub"
version = "0.1.0"
edition = "2021"
publish = false

[dependencies]
bytes = "=0.4.12"
futures = "=0.1.31"
mio = { version = "=1.2.4", features = ["net", "os-poll"] }
tokio-core = "=0.1.18"
tokio-io = "=0.1.13"
