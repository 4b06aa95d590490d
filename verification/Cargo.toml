[package]
name = "blockguard"
version = "0.1.0"
edition = "2021"
publish = false

[dependencies]
k256 = { version = "=0.14.0", features = ["getrandom"] }
sha2 = "=0.11.1"
primitive-types = "=0.14.0"
