[package]
name = "vsp"
version = "0.1.0"
edition = "2021"
publish = false

[dependencies]
rand = "0.8"
uuid = { version = "1", features = ["v4"] }
reqwest = { version = "0.12", default-features = false, features = ["blocking"] }

[dev-dependencies]
serde_json = "1"
