[package]
name = "my_mini_redis"
version = "0.1.0"
edition = "2021"
publish = false

[dependencies]
tokio = { version = "1", features = ["sync", "rt-multi-thread", "net", "io-util", "time", "macros", "signal"] }
tokio-stream = "0.1"
async-stream = "0.3"
atoi = "2"
