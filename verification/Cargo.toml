[package]
name = "double_agentx"
version = "0.1.0"
edition = "2021"
publish = false

[dependencies]
agentx = "*"
anyhow = "*"
clap = { version = "*", features = ["derive"] }
env_logger = "*"
jsonpath_lib = "*"
log = "*"
serde = { version = "*", features = ["derive"] }
serde_json = "*"
serde_yaml = "*"
