[package]
name = "drain_check"
version = "0.1.0"
edition = "2021"
publish = false

[dependencies]
antithesis_sdk = "*"
anyhow = "1"
chrono = "0.4"
rdkafka = "*"
serde = { version = "1", features = ["derive"] }
serde_json = "1"
tokio = { version = "1", features = ["macros", "rt-multi-thread", "time"] }
tracing = "0.1"
tracing-subscriber = { version = "0.3", features = ["json"] }
