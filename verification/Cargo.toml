[package]
name = "mlperf_log_parser"
version = "0.1.0"
edition = "2021"
publish = false

[dependencies]
env_logger = "*"
log = "*"
serde = { version = "1", features = ["derive"] }
serde_json = "1"
serde-value = "*"
serde_yaml = "*"
structopt = "*"
