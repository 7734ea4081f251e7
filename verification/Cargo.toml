[package]
name = "cepler"
version = "0.1.0"
edition = "2021"
publish = false

[dependencies]
anyhow = "1"
clap = "2"
serde_yaml = "0.8"
