[package]
name = "resp_kv"
version = "0.1.0"
edition = "2021"
publish = false

[dependencies]
bytes = "1"
memchr = "2"
thiserror = "1"
futures-util = { version = "0.3", default-features = false, features = ["std", "sink"] }
tokio = { version = "1", features = ["rt-multi-thread", "macros", "net", "io-util"] }
tokio-util = { version = "0.7", features = ["codec"] }
