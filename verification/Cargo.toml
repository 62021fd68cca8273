[package]
name = "moonshine_core"
version = "0.1.0"
edition = "2021"
publish = false

[dependencies]
aes = "0.8"
aes-gcm = "0.10"
async-shutdown = "0.2"
cbc = "0.1"
quinn-udp = "0.5"
serde = { version = "1", features = ["derive"] }
tokio = { version = "1", features = ["net", "sync", "time", "rt", "macros"] }
tracing = "0.1"
