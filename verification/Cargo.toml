[package]
name = "alns-rs"
version = "0.1.0"
edition = "2021"
publish = false

[dependencies]
rand = "=0.8.8"
tspf = "=0.3.1"
