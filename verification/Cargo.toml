[package]
name = "resp_codec"
version = "0.1.0"
edition = "2021"
publish = false

[dependencies]
tokio = { version = "1", features = ["full"] }
rustyline = "*"
structopt = "0.3"
signal-hook = "0.3"
env_logger = "*"
log = "*"
