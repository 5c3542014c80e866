[package]
name = "vaction"
version = "0.1.0"
edition = "2021"
publish = false

[dependencies]
crossbeam-channel = "*"
livesplit-hotkey = "*"
directories = "*"
env_logger = "*"
log = "*"
serde = { version = "*", features = ["derive"] }
toml = "*"
