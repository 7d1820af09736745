[package]
name = "bugle"
version = "0.1.0"
edition = "2021"
publish = false

[dependencies]
anyhow = "*"
rust-ini = "*"
