[package]
name = "activity_ledger"
version = "0.1.0"
edition = "2021"
publish = false

[dependencies]
anyhow = "=1.0.104"
apca = "=0.31.0"
chrono = "=0.4.45"
chrono-tz = "=0.10.4"
futures = "=0.3.34"
num-decimal = { version = "=0.2.5", default-features = false, features = ["num-v04"] }
serde_json = "=1.0.151"
structopt = "=0.3.26"
tokio = { version = "=1.53.2", features = ["rt", "net", "time", "io-util"] }
tracing = "=0.1.44"
tracing-subscriber = "=0.3.23"
