[package]
name = "stable_map"
version = "0.1.0"
edition = "2021"
publish = false

[dependencies]
hashbrown = "*"
min-max-heap = "*"
serde = { version = "*", features = ["derive"] }
serde_json = "*"
