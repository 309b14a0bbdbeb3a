[package]
name = "dataserver"
version = "0.1.0"
edition = "2021"
publish = false

[dependencies]
serde = { version = "1", features = ["derive"] }
serde_json = "1"
ring = "0.17"
evalexpr = "*"
sled = "0.34"
bincode = "1"
chrono = "0.4"
regex = "1"
