[package]
name = "httparena"
version = "0.1.0"
edition = "2021"
publish = false

[dependencies]
dashmap = "=6.2.1"
querystrong = "=0.4.0"
serde = { version = "=1.0.229", features = ["derive"] }
serde_json = "=1.0.154"
sonic-rs = "=0.5.10"
log = "=0.4.35"
env_logger = "=0.11.11"
mimalloc = "=0.1.52"
num_cpus = "=1.17.0"
signal-hook = "=0.4.6"
socket2 = { version = "=0.4.10", features = ["all"] }
swansong = "=0.3.7"
futures-lite = "=2.6.1"
deadpool-postgres = "=0.14.2"
tokio-postgres = { version = "=0.7.18", features = ["with-serde_json-1"] }
trillium = "1"
trillium-http = ">=1.6.4, <1.8"
trillium-server-common = ">=0.7.12, <0.7.13"
trillium-tokio = "0.6"
trillium-router = "0.6"
trillium-compression = "0.3"
trillium-websockets = "0.9"
trillium-static = "0.6"
trillium-rustls = "0.11"
trillium-quinn = "0.1"
trillium-proxy = "0.8"
tokio-uring = "=0.5.0"
