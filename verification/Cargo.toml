[package]
name = "quic_relay"
version = "0.1.0"
edition = "2021"
publish = false

[dependencies]
anyhow = "1"
bytes = "1"
clap = { version = "4", features = ["derive"] }
n0-error = "*"
n0-future = "*"
noq = { version = "*", default-features = false, features = ["rustls-ring", "runtime-tokio"] }
rand = "0.9"
rustls = { version = "0.23", default-features = false, features = ["ring", "std"] }
tokio = { version = "1", features = ["macros", "net", "rt-multi-thread", "sync", "time"] }
tokio-util = { version = "0.7", features = ["rt"] }
tokio-websockets = { version = "*", features = ["client", "fastrand", "sha1_smol"] }
tracing = "0.1"
tracing-subscriber = { version = "0.3", features = ["env-filter"] }
webpki-roots = "1"
