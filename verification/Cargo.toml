[package]
name = "tg"
version = "0.1.0"
edition = "2021"
publish = false

[dependencies]
bytes = "1"
hex = "0.4"
lazy_static = "1"
lockfree-object-pool = "0.1"
tokio = { version = "1", features = ["full"] }
async-trait = "0.1"
futures = "0.3"
futures-util = "0.3"
async-channel = "*"
tracing = "0.1"
tracing-subscriber = { version = "0.3", features = ["time"] }
tracing-appender = "0.2"
time = { version = "0.3", features = ["macros", "formatting"] }
