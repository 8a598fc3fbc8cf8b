[package]
name = "tcp_ais_broker"
version = "0.1.0"
edition = "2021"
publish = false

[dependencies]
bytes = "1"
tokio = { version = "1", features = ["full"] }
tokio-util = { version = "0.7", features = ["codec"] }
futures-util = "0.3"
clap = { version = "4", features = ["derive"] }
metrics = "*"
metrics-exporter-prometheus = { version = "*", default-features = false }
tracing = "0.1"
tracing-subscriber = { version = "0.3", features = ["json", "env-filter"] }
anyhow = "1"
