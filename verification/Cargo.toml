[package]
name = "json"
version = "0.1.0"
edition = "2021"
publish = false

[dependencies]
smallstr = "=0.3.1"
