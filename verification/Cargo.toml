[package]
name = "libsearchlight"
version = "0.1.0"
edition = "2021"
publish = false

[dependencies]
crc32fast = "1"
flate2 = "1"
unicode-segmentation = "1"
serde = { version = "1", features = ["derive"] }
serde_json = "1"
toml = "0.8"
clap = { version = "4", features = ["derive"] }
clap-verbosity-flag = "2"
env_logger = "0.11"
log = "0.4"
humantime = "2"
memmap = "0.7"
