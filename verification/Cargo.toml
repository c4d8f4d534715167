[package]
name = "json_joy_core"
version = "0.1.0"
edition = "2021"
publish = false

[dependencies]
ciborium = "=0.2.2"
serde_json = "=1.0.154"
rand = "=0.8.8"
base64 = "0.22"
