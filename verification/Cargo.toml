[package]
name = "engraver"
version = "0.1.0"
edition = "2021"
publish = false

[dependencies]
image = "0.24"
serde = { version = "1", features = ["derive"] }
serde_json = "1"
