[package]
name = "cark"
version = "0.1.0"
edition = "2021"
publish = false

[dependencies]
rand = "0.8"
parry2d = "0.13"
log = "0.4"
env_logger = "0.10"
toml = "0.8"
serde = { version = "1", features = ["derive"] }

[dev-dependencies]
postcard = { version = "1", features = ["alloc"] }
