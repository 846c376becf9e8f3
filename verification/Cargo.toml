[package]
name = "mneme"
version = "1.0.0"
edition = "2021"
publish = false

[dependencies]
anyhow = "=1.0.104"
base64 = "=0.22.1"
bytes = "=1.12.1"
clap = { version = "=4.6.7", features = ["derive"] }
crc = "=3.4.0"
hmac = "=0.12.1"
http-body-util = "=0.1.5"
hyper = { version = "=1.12.0", features = ["server", "http1"] }
hyper-util = { version = "=0.1.21", features = ["tokio"] }
libc = "=0.2.191"
openraft = { version = "=0.9.25", features = ["serde"] }
parking_lot = "=0.12.5"
pbkdf2 = "=0.12.2"
perf-event = "=0.4.9"
prometheus = { version = "=0.13.4", default-features = false }
rand = "=0.8.8"
rcgen = "=0.13.2"
redb = "=2.6.4"
rmp-serde = "=1.3.1"
rustls = { version = "=0.23.46", default-features = false, features = ["ring", "std", "tls12", "logging"] }
rustls-pemfile = "=2.2.0"
serde = { version = "=1.0.229", features = ["derive"] }
serde_json = "=1.0.154"
sha2 = "=0.10.9"
tokio = { version = "=1.54.1", features = ["full"] }
tokio-rustls = { version = "=0.26.6", default-features = false, features = ["ring", "tls12", "logging"] }
toml = "0.8"
tracing = "=0.1.44"
tracing-subscriber = { version = "=0.3.23", features = ["env-filter"] }
zstd = "=0.13.4"
