[package]
name = "sakura"
version = "0.1.0"
edition = "2021"
publish = false

[dependencies]
async-sse = "=5.1.0"
async-std = "=1.13.2"
automerge = "=0.12.0"
autosurgeon = "=0.14.0"
chrono = { version = "=0.4.45", features = ["serde"] }
clap = { version = "=4.6.7", features = ["derive"] }
color-eyre = "=0.6.5"
crossbeam-channel = "=0.5.17"
crossterm = { version = "=0.29.0", features = ["event-stream", "serde"] }
crux_core = "=0.20.0"
directories = "=6.0.0"
facet = "=0.46.5"
futures = "=0.3.34"
ratatui = "=0.30.2"
serde = { version = "=1.0.229", features = ["derive"] }
serde_json = "=1.0.154"
signal-hook = "=0.4.5"
thiserror = "=2.0.21"
tokio = { version = "=1.54.1", features = ["full"] }
tokio-util = "=0.7.20"
tracing = "=0.1.44"
tracing-subscriber = { version = "=0.3.23", features = ["env-filter"] }
