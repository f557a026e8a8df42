[package]
name = "llms_unplugged"
version = "0.1.0"
edition = "2021"
publish = false

[dependencies]
serde_yaml = "*"
serde = { version = "*", features = ["derive"] }
serde_json = "*"
clap = { version = "*", features = ["derive"] }
