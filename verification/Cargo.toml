[package]
name = "rgb_core"
version = "0.1.0"
edition = "2021"
publish = false

[dependencies]
baid58 = "=0.4.4"
base58 = "=0.2.0"
sha2 = "=0.10.9"
