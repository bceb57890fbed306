[package]
name = "fastboot-protocol"
version = "0.1.0"
edition = "2021"
publish = false

[dependencies]
nusb = { version = "0.2", features = ["tokio"] }
thiserror = "2"
tracing = "0.1"
