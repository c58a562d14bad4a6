[package]
name = "echanger"
version = "0.1.0"
edition = "2021"
publish = false

[dependencies]
clap = "3"
crossbeam-channel = "0.5"
ctrlc = "3"
env_logger = "0.9"
log = "0.4"
signal-hook = "0.3"
