[package]
name = "mailparse"
version = "0.1.0"
edition = "2021"
publish = false

[dependencies]
charset = "0.1"

[dev-dependencies]
base64 = "0.13"
