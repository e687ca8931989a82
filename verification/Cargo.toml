[package]
name = "rrm"
version = "0.1.0"
edition = "2021"
publish = false

[dependencies]
chrono = "*"
clap = { version = "*", features = ["derive"] }
comfy-table = "*"
derive_more = { version = "*", features = ["display", "from"] }
env_logger = "*"
log = "*"
uuid = { version = "*", features = ["v4"] }
xattr = "*"
