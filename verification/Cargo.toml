[package]
name = "chatwith"
version = "0.1.0"
edition = "2021"
publish = false

[dependencies]
serde_json = "*"
curl = "*"
dirs = "*"
