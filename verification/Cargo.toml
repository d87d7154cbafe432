[package]
name = "rdfsplitter"
version = "0.1.0"
edition = "2021"
publish = false

[dependencies]
rio_api = "0.8"
rio_turtle = "0.8"
rio_xml = "0.8"
oxiri = "0.2"
serde_json = "1"
clap = { version = "4", features = ["derive"] }
glob = "0.3"
anyhow = "1"
thiserror = "*"
log = "0.4"
env_logger = "*"
