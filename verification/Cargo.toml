[package]
name = "pipit_config"
version = "0.1.0"
edition = "2021"
publish = false

[dependencies]
bit-vec = "=0.10.1"
itertools = "=0.15.0"
unicode-segmentation = "=1.13.3"
serde = { version = "=1.0.229", features = ["derive"] }
toml = "=1.1.8"
time = "=0.1.45"
ron = "*"
cursive = "*"
