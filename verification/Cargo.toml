[package]
name = "tap_escrow_manager"
version = "0.1.0"
edition = "2021"
publish = false

[dependencies]
alloy-primitives = "1"
anyhow = "1"
chrono = "0.4"
futures-util = "0.3"
rdkafka = "0.38"
reqwest = { version = "0.12", features = ["json"] }
serde = { version = "1", features = ["derive"] }
serde_json = "1"
tokio = { version = "1", features = ["full"] }
tracing = "0.1"
tracing-subscriber = "0.3"

[dev-dependencies]
prost = { version = "0.13", default-features = false }
