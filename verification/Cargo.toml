[package]
name = "hyper_replay"
version = "0.1.0"
edition = "2021"
publish = false

[dependencies]
serde_json = "*"
serde_urlencoded = "*"
reqwest = { version = "*", default-features = false, features = ["blocking"] }
