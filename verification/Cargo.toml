[package]
name = "frida_asan"
version = "0.1.0"
edition = "2021"
publish = false

[dependencies]
ahash = "*"
backtrace = "*"
hashbrown = "*"
libloading = "*"
rangemap = "*"
serde = { version = "*", features = ["derive"] }
