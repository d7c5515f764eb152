[package]
name = "koharu"
version = "0.1.0"
edition = "2021"
publish = false

[dependencies]
anyhow = "1"
async-trait = "0.1"
candle-core = "0.9"
image = { version = "0.25", default-features = false }
imageproc = "*"
inventory = "0.3"
keyring = "3"
sentry = { version = "*", default-features = false, features = ["tracing"] }
serde = { version = "1", features = ["derive"] }
serde_json = "1"
tracing = "0.1"
tracing-subscriber = "0.3"
