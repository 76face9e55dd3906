[package]
name = "myownllm"
version = "0.1.0"
edition = "2021"
publish = false

[dependencies]
serde_json = { version = "1", features = ["preserve_order"] }
serde = { version = "1", features = ["derive"] }
anyhow = "1"
tokio = { version = "1", features = ["full"] }
dirs = "*"
which = "*"
axum = "*"
tower-http = { version = "*", features = ["cors"] }
reqwest = { version = "*", default-features = false, features = ["json", "stream"] }
futures-util = "*"
bytes = "*"
dashmap = "*"
tokio-stream = "*"
crossbeam-channel = "*"
ndarray = "*"
realfft = "*"
symphonia = "*"
