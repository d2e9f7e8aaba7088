[package]
name = "batatacode"
version = "0.1.0"
edition = "2021"
publish = false

[dependencies]
bitvec = "1"
serde = { version = "1", features = ["derive"] }
serde_json = "1"
heck = "0.5"
