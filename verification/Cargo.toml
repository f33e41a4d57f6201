[package]
name = "txpool_core"
version = "0.1.0"
edition = "2021"
publish = false

[dependencies]
tokio = { version = "1", features = ["sync", "macros", "rt"] }
parking_lot = "0.12"
tokio-stream = "0.1"
anyhow = "1"
tracing = "0.1"
