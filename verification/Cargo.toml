[package]
name = "ekke_merge"
version = "0.1.0"
edition = "2021"
publish = false

[dependencies]
serde_yaml = "0.8"
failure = "0.1"
