[package]
name = "parts"
version = "0.1.0"
edition = "2021"
publish = false

[dependencies]
anyhow = "1"
atty = "0.2"
clap = { version = "4", features = ["derive"] }
clap_complete = "4"
clap-verbosity-flag = "2"
crossbeam-channel = "0.5"
globset = "0.4"
ignore = "0.4"
itertools = "0.10"
log = "0.4"
pretty_env_logger = "0.5"
regex = "1"
termcolor = "1"
thiserror = "1"
toml = "0.8"
