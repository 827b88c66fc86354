[package]
name = "rustymon_world"
version = "0.1.0"
edition = "2021"

[dependencies]
clap = { version = "4", features = ["derive"] }
env_logger = "*"
libosmium = "*"
log = "0.4"
nalgebra = "*"
rmp-serde = "1"
serde = { version = "1", features = ["derive"] }
serde_json = "1"
