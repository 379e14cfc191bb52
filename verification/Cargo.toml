[package]
name = "file_server"
version = "0.1.0"
edition = "2021"
publish = false

[dependencies]
futures = "=0.3.34"
poem = { version = "=1.3.59", features = ["static-files"] }
serde = { version = "=1.0.229", features = ["derive"] }
sysinfo = "=0.29.11"
tokio = { version = "=1.54.1", features = ["fs", "macros", "rt-multi-thread"] }
tracing-subscriber = "=0.3.23"
