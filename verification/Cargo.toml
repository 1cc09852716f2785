[package]
name = "btclib"
version = "0.1.0"
edition = "2021"
publish = false

[dependencies]
chrono = "0.4"
bigdecimal = "0.4"
ciborium = "0.2"
serde = { version = "1", features = ["derive"] }
thiserror = "2"
tokio = { version = "1", features = ["io-util"] }
tracing = "0.1"
tracing-subscriber = { version = "0.3", features = ["env-filter"] }
tracing-appender = "0.2"
anyhow = "1"
