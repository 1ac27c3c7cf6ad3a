[package]
name = "rsslide"
version = "0.1.0"
edition = "2021"
publish = false

[dependencies]
anyhow = "=1.0.104"
clap = { version = "=4.6.7", features = ["derive"] }
dirs = "=7.0.0"
fontdb = "=0.23.0"
krilla = "=0.8.2"
krilla-svg = "=0.8.1"
serde = { version = "=1.0.229", features = ["derive"] }
serde_yaml = "=0.9.34"
syntect = { version = "=5.3.0", default-features = false, features = ["default-fancy"] }
toml = "=1.1.8"
usvg = "=0.47.0"
