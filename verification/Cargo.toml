[package]
name = "rach"
version = "0.2.0"
edition = "2021"
publish = false

[dependencies]
serde_json = "1"
