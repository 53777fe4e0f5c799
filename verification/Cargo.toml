[package]
name = "ackqueue"
version = "0.1.0"
edition = "2021"
publish = false

[dependencies]
axum = { version = "0.6", features = ["ws"] }
rocksdb = "*"
serde = { version = "1", features = ["derive"] }
tokio = { version = "1", features = ["full"] }
ulid = "1"
