[package]
name = "binance_bot"
version = "0.1.0"
edition = "2021"
publish = false

[dependencies]
tokio = { version = "*", features = ["full"] }
futures = "*"
serde_json = "*"
chrono = "*"
clap = "*"
log = "*"
simple_logger = "*"
tokio-binance = "*"
