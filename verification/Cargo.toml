[package]
name = "prevayler_rs"
version = "0.1.0"
edition = "2021"
publish = false

[dependencies]
serde = { version = "1", features = ["derive"] }
serde_json = "1"
tokio = { version = "1", features = ["fs", "io-util", "rt", "rt-multi-thread", "macros"] }
tokio-stream = "0.1"
pin-project-lite = "0.2"
thiserror = "2"
async-std = { version = "1", features = ["attributes"] }
futures = "0.3"
