[package]
name = "cutlib"
version = "0.1.0"
edition = "2021"
publish = false

[dependencies]
csv = "1"
rand = "0.8"
clap = "4"
anyhow = "1"
