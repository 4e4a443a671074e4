[package]
name = "candlestore"
version = "0.1.0"
edition = "2021"
publish = false

[dependencies]
hashbrown = "=0.14.5"
parking_lot = "=0.12.5"
libc = "0.2"
num_cpus = "=1.17.0"
thiserror = "2"
tracing = "0.1"
tracing-subscriber = { version = "0.3", features = ["env-filter"] }
metrics = "0.24"
metrics-exporter-prometheus = { version = "0.18", default-features = false, features = ["http-listener"] }
signal-hook = "0.3"
arrow = { version = "=60.1.0", default-features = false }
parquet = { version = "=60.1.0", default-features = false, features = ["arrow"] }
bytes = "=1.12.1"
tokio = { version = "1", features = ["rt-multi-thread", "time", "net", "macros"] }
tokio-tungstenite = "0.30"
futures-util = "0.3"
serde = { version = "1", features = ["derive"] }
serde_json = "1"
