[package]
name = "ascon"
version = "0.1.0"
edition = "2021"
publish = false

[dependencies]
subtle = "2"
zeroize = "1"
aead = "0.4"
digest = "0.10"

[dev-dependencies]
hex = "0.4"
