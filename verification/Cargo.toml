[package]
name = "toio_midi"
version = "0.1.0"
edition = "2021"
publish = false

[dependencies]
anyhow = "*"
env_logger = "*"
futures = "*"
ghakuf = "*"
log = "*"
structopt = "*"
tokio = { version = "*", features = ["full"] }
toio = "*"
