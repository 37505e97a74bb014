[package]
name = "trailplan"
version = "0.1.0"
edition = "2021"
publish = false

[dependencies]
chrono = "0.4"
hyper = "0.10"
rustc-serialize = "0.3"
xml-rs = "0.8"
