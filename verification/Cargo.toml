[package]
name = "simple_redis"
version = "0.1.0"
edition = "2021"
publish = false

[dependencies]
anyhow = "1"
bytes = "1"
tokio = { version = "1", features = ["rt-multi-thread", "net", "macros", "io-util"] }
tracing = "0.1"
tracing-subscriber = "0.3"
