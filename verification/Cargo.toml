[package]
name = "rollsum"
version = "0.4.0"
edition = "2021"
publish = false

[dependencies]
rand = "0.4"

[dev-dependencies]
nanorand = "0.7"
