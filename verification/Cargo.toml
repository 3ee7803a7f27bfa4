[package]
name = "smallstack"
version = "0.1.0"
edition = "2021"
publish = false

[dependencies]
hyper = { version = "1", features = ["server", "http1", "http2"] }
hyper-util = { version = "0.1", features = ["tokio", "server", "server-auto", "http1", "http2"] }
http-body = "1"
http-body-util = "0.1"
tokio = { version = "1", features = ["net", "rt", "rt-multi-thread", "macros", "signal", "sync", "time", "fs", "io-util"] }
futures-core = "0.3"
serde = "1"
serde_json = "1"
serde_qs = "*"
httpdate = "1"
rustls = { version = "0.23", default-features = false, features = ["ring", "std", "tls12", "logging"] }
rustls-pemfile = "2"

[dev-dependencies]
tempfile = "3"
