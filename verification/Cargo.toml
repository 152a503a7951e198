[package]
name = "fqdn"
version = "0.1.0"
edition = "2021"
publish = false

[dependencies]
punycode = "0.4"
serde = "1"
