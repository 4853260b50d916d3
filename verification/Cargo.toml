[package]
name = "puddle_core"
version = "0.1.0"
edition = "2021"
publish = false

[dependencies]
clap = { version = "2", default-features = false }
env_logger = { version = "*", default-features = false }
jsonrpc-core = "18"
log = "0.4"

[dev-dependencies]
crossbeam = "0.8"
