[package]
name = "juxr"
version = "0.3.0"
edition = "2021"
publish = false

[dependencies]
anyhow = "*"
base64 = "*"
chrono = "*"
clap = { version = "*", features = ["env"] }
globwalk = "*"
log = "*"
pretty_env_logger = "*"
regex = "*"
serde = { version = "*", features = ["derive"] }
serde_yaml = "*"
uuid = { version = "*", features = ["v4"] }
xml-rs = "*"
