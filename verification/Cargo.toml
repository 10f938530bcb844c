[package]
name = "sroogle"
version = "0.1.0"
edition = "2021"
publish = false

[dependencies]
serde_json = "1"
tiny_http = "0.12"
urlencoding = "2"
xml-rs = "0.8"
