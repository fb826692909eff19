[package]
name = "labello"
version = "0.1.0"
edition = "2021"
publish = false

[dependencies]
chrono = { version = "0.4", default-features = false, features = ["alloc"] }
web-time = "1"
futures = "0.3"
