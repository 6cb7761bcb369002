[package]
name = "quake_subnets"
version = "0.1.0"
edition = "2021"
publish = false

[dependencies]
color-eyre = "0.6"
indexmap = { version = "2", features = ["serde"] }
serde = { version = "1", features = ["derive"] }
