[package]
name = "resource-tracker"
version = "0.1.15"
edition = "2021"
publish = false

[dependencies]
clap = { version = "4", features = ["derive", "env"] }
libc = "0.2"
procfs = "0.17"
serde = { version = "1", features = ["derive"] }
serde_json = "1"
toml = "0.8"
