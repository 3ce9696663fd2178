[package]
name = "stackdriver_log"
version = "0.1.0"
edition = "2021"
publish = false

[dependencies]
time = { version = "0.3", features = ["formatting"] }
serde = "1"
serde_json = "1"
thiserror = "1"
tracing-core = "0.1"
tracing-serde = "0.1"
tracing-subscriber = { version = "0.3", features = ["time"] }
