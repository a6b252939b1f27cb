[package]
name = "rmenu"
version = "0.1.0"
edition = "2021"
publish = false

[dependencies]
anyhow = "1"
clap = { version = "4", features = ["derive"] }
dirs = "5"
env_logger = "0.10"
font-kit = "*"
log = "0.4"
pathfinder_geometry = "0.5"
raqote = "0.8"
serde = { version = "1", features = ["derive"] }
serde_yaml = "0.9"
smithay-client-toolkit = "0.18"
wayland-client = "0.31"
