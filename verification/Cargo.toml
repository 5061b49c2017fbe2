[package]
name = "sley-odb"
version = "0.1.0"
edition = "2021"
publish = false

[dependencies]
flate2 = { version = "=1.1.10", default-features = false, features = ["zlib-rs"] }
sha1 = "=0.10.7"
sha2 = "=0.10.9"
