[package]
name = "organ_engine"
version = "0.1.0"
edition = "2021"
publish = false

[dependencies]
memmap2 = "*"
cpal = "*"
crossbeam-channel = "*"
anyhow = "*"
log = "*"
env_logger = "*"
serde = { version = "*", features = ["derive"] }
serde_json = "*"
