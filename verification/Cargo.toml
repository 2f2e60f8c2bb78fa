[package]
name = "zfs_exporter"
version = "0.1.0"
edition = "2021"
publish = false

[dependencies]
regex = "*"
anyhow = "*"
serde = { version = "*", features = ["derive"] }
toml = "*"
structopt = "*"
prometheus_exporter = "*"
async-std = { version = "*", features = ["attributes"] }
