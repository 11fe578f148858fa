[package]
name = "mempool_sync"
version = "0.1.0"
edition = "2021"
publish = false

[dependencies]
arrayref = "0.3"
bitcoin = "0.18"
bytes = "0.4"
chrono = "0.4"
clap = { version = "2", features = ["yaml"] }
colored = "1"
flexi_logger = "0.11"
futures = "0.1"
futures-zmq = "*"
hex = "0.3"
itertools = "0.8"
log = "0.4"
minisketch-rs = "*"
serde_json = "1"
tokio = "0.1"
zmq = "0.9"
