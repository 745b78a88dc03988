[package]
name = "wire_core"
version = "0.1.0"
edition = "2021"
publish = false

[dependencies]
anyhow = "1"
libc = "0.2"
rand = { version = "0.8", features = ["small_rng"] }
tracing-subscriber = "0.3"
