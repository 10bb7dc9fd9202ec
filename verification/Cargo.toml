[package]
name = "humanbyte"
version = "0.1.0"
edition = "2021"
publish = false

[dependencies]
serde = "1"
schemars = "1"
arbitrary = { version = "1", features = ["derive"] }
