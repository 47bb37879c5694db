[package]
name = "librypt_sha1"
version = "0.1.0"
edition = "2021"

[dev-dependencies]
hex = "=0.4.3"
