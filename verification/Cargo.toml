[package]
name = "taskconf"
version = "0.1.0"
edition = "2021"
publish = false

[dependencies]
serde = { version = "*", features = ["derive"] }
serde_yml = "*"
reqwest = { version = "*", default-features = false }
