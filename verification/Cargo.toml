[package]
name = "banner_rotator"
version = "0.1.0"
edition = "2021"
publish = false

[dependencies]
rand = "0.7"
clap = "2"
csv = "1"
hyper = "0.12"
serde = { version = "1", features = ["derive"] }
url = "2"
