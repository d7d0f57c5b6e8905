[package]
name = "bee_runtime"
version = "0.1.0"
edition = "2021"
publish = false

[dependencies]
tokio = { version = "1", features = ["sync", "rt", "rt-multi-thread", "macros", "time", "signal"] }
tokio-util = "0.7"
futures = "0.3"
tracing = "0.1"
thiserror = "1"
