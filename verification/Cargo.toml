[package]
name = "telemetry"
version = "0.1.0"
edition = "2021"
publish = false

[dependencies]
prost-types = "0.14"
prost = "0.14"
tonic = "0.14"
tonic-prost = "0.14"
tokio = { version = "1", features = ["macros", "rt-multi-thread", "sync", "time", "signal"] }
tokio-stream = "0.1"
tokio-util = "0.7"
clap = { version = "4", features = ["derive"] }
anyhow = "1"
tracing = "0.1"
tracing-subscriber = { version = "0.3", features = ["env-filter"] }
