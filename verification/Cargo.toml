[package]
name = "carb"
version = "0.1.0"
edition = "2021"
publish = false

[dependencies]
serde = { version = "1", features = ["derive"] }
serde_json = "1"
serde_yaml = "*"
globwalk = "*"
structopt = "0.3"
clap-verbosity-flag = "*"
env_logger = "*"
log = "0.4"
thiserror = "1"
