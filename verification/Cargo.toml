[package]
name = "simengine"
version = "0.1.0"
edition = "2021"
publish = false

[dependencies]
sha2 = "*"
chrono = "*"
serde_json = "*"
mshio = "*"
