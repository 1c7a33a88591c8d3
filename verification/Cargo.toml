[package]
name = "joff"
version = "0.1.0"
edition = "2021"
publish = false

[dependencies]
kv = "*"
serde_json = "*"
clap = { version = "*", features = ["derive"] }
reqwest = { version = "*", default-features = false, features = ["blocking"] }
