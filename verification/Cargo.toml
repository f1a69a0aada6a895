[package]
name = "tcp2http"
version = "0.1.0"
edition = "2021"
publish = false

[dependencies]
anyhow = "*"
bytes = "*"
rand = "*"
socket2 = "*"
thiserror = "*"
tokio = { version = "*", features = ["full"] }
tokio-util = "*"
tracing = "*"
