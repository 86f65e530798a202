[package]
name = "chiron"
version = "0.1.0"
edition = "2021"
publish = false

[dependencies]
boxcar = "0.2"
flume = { version = "0.11", default-features = false }
rustc-hash = "2"
revm = { version = "14", default-features = false, features = ["std"] }
