[package]
name = "kai"
version = "0.1.1"
edition = "2021"
publish = false

[dependencies]
clap = "*"
env_logger = "*"
flate2 = "*"
log = "*"
rust-htslib = "*"
