[package]
name = "exchange"
version = "0.1.0"
edition = "2021"
publish = false

[dependencies]
bytes = "1"
crc32fast = "1"
rustc-hash = "2"
slab = "0.4"
serde = { version = "1", features = ["derive"] }
serde_json = "1"
thiserror = "2"
crossbeam-channel = "0.5"
tokio = { version = "1", features = ["full"] }
tokio-tungstenite = "*"
futures = "0.3"
tracing = "0.1"
tracing-subscriber = { version = "0.3", features = ["env-filter"] }
hdrhistogram = "7"
metrics = "*"
metrics-exporter-prometheus = "*"
core_affinity = "0.8"
clap = { version = "4", features = ["derive"] }
rand = "0.8"
