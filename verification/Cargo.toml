[package]
name = "opendbs"
version = "0.1.0"
edition = "2021"
publish = false

[dependencies]
strsim = "*"
parking_lot = "*"

[dev-dependencies]
serde_json = "*"
