[package]
name = "mdns_responder"
version = "0.1.0"
edition = "2021"
publish = false

[dependencies]
dns-parser = "0.8"
rand = "0.8"
