[package]
name = "smol_lsm"
version = "0.1.0"
edition = "2021"
publish = false

[dependencies]
anyhow = "=1.0.104"
arrow = { version = "=59.3.1", default-features = false }
async-trait = "=0.1.92"
clap = { version = "=4.6.7", features = ["derive"] }
clap-verbosity-flag = "=3.0.4"
datafusion = { version = "=55.2.0", default-features = false }
env_logger = "=0.11.11"
log = "=0.4.34"
tokio = { version = "=1.54.1", features = ["rt", "macros"] }
