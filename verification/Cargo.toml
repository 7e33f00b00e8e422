[package]
name = "orbiter_logic"
version = "0.1.0"
edition = "2021"
publish = false

[dependencies]
cgmath = { version = "0.18", features = ["serde"] }
rand = "0.8"
serde = { version = "1", features = ["derive"] }
serde_json = "1"
