[package]
name = "vcs_conflict"
version = "0.1.0"
edition = "2021"
publish = false

[dependencies]
imara-diff = "0.2.0"
ropey = { version = "1.6.1", default-features = false, features = ["simd"] }
