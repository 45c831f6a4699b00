[package]
name = "exchange"
version = "0.1.0"
edition = "2021"
publish = false

[dependencies]
anyhow = "=1.0.104"
prost = "0.13"
tokio = { version = "=1.54.1", features = ["macros", "rt-multi-thread", "sync"] }
tonic = "=0.12.3"
uuid = { version = "=1.29.0", features = ["v4"] }
