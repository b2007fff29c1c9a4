[package]
name = "msmp"
version = "0.1.0"
edition = "2021"
publish = false

[dependencies]
nb = "1"
anyhow = "1"
bytes = "1"
clap = { version = "4", features = ["derive"] }
clap-num = "1"
env_logger = "0.11"
futures-util = { version = "0.3", features = ["sink"] }
hex = "0.4"
log = "0.4"
tokio = { version = "1", features = ["full"] }
tokio-serial = "5"
tokio-util = { version = "0.7", features = ["codec"] }
