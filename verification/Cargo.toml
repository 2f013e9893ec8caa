[package]
name = "aquascope"
version = "0.1.0"
edition = "2021"
publish = false

[dependencies]
datafrog = "2.0.1"
polonius-engine = "0.13.0"
anyhow = "1"
either = "1"
log = "0.4"
serde = { version = "1", features = ["derive"] }
toml = "0.7"
snafu = "0.7"
axum = "0.6"
env_logger = "0.10"
