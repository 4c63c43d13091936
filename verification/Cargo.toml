[package]
name = "tcp"
version = "0.1.0"
edition = "2021"
publish = false

[dependencies]
async-trait = "0.1"
tokio = { version = "1", features = ["io-util", "macros", "net", "rt-multi-thread"] }
tokio-vsock = "0.4"
