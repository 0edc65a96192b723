[package]
name = "rate-net"
version = "0.9.5"
edition = "2021"
publish = false

[dependencies]
better-bucket = { version = "*", features = ["clock"] }
clock-lib = "*"
error-forge = "*"
tokio = { version = "*", features = ["time"] }
