[package]
name = "binpack"
version = "0.1.0"
edition = "2021"
publish = false

[dependencies]
genetic_algorithm = "*"
serde = { version = "1", features = ["derive"] }
serde_json = "1"
