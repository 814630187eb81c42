[package]
name = "pylon"
version = "0.1.0"
edition = "2021"
publish = false

[dependencies]
async-trait = "=0.1.92"
axum = { version = "=0.8.9", default-features = false, features = ["tokio", "http1"] }
base64 = "=0.22.1"
bytes = "=1.12.1"
dashmap = "=6.2.1"
futures-executor = "=0.3.34"
hmac = "=0.12.1"
httparse = "=1.10.1"
hyper-util = { version = "=0.1.21", features = ["tokio", "server", "server-auto", "http1", "service"] }
mio = { version = "=1.2.4", features = ["os-poll", "net"] }
reqwest = { version = "=0.12.28", default-features = false, features = ["rustls-tls"] }
rustls = { version = "=0.23.46", default-features = false, features = ["std", "tls12", "ring"] }
serde_json = "=1.0.154"
sha1 = "=0.10.7"
sha2 = "=0.10.9"
slab = "=0.4.12"
socket2 = { version = "=0.5.10", features = ["all"] }
tokio = { version = "=1.54.1", features = ["rt", "sync", "time", "macros", "net", "io-util"] }
tracing = "=0.1.44"
url = "=2.5.8"

[dev-dependencies]
rcgen = "0.13"
