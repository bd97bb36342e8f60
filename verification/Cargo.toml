[package]
name = "rou2exos"
version = "0.1.0"
edition = "2021"
publish = false

[dependencies]
spin = "0.9"
x86_64 = { version = "0.15", default-features = false, features = ["instructions"] }
