[package]
name = "frankish"
version = "0.1.0"
edition = "2021"
publish = false

[dependencies]
ena = "0.14"
serde_json = "1"
sha2 = "0.10"
