[package]
name = "cunw"
version = "0.1.0"
edition = "2021"
publish = false

[dependencies]
globset = "=0.4.20"
ptree = { version = "*", default-features = false }
walkdir = "=2.5.0"
tokio = { version = "=1.54.1", features = ["fs", "rt", "rt-multi-thread", "macros"] }
futures = "=0.3.34"
clap = { version = "=4.6.7", features = ["derive"] }
clap-verbosity-flag = "=3.0.4"
log = "=0.4.34"
env_logger = "=0.11.11"
colored = "=3.1.1"
terminal-emoji = "=0.4.1"
thiserror = "=2.0.21"
miette = "=7.6.0"
