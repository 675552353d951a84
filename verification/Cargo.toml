[package]
name = "bvec"
version = "0.1.0"
edition = "2021"
publish = false

[dependencies]
libfuzzer-sys = "0.4"

[dev-dependencies]
rand = "0.8"
