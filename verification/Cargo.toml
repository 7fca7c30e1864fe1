[package]
name = "wyag"
version = "0.1.0"
edition = "2021"
publish = false

[dependencies]
sha1 = "*"
hex = "*"
flate2 = "*"
anyhow = "*"
rust-ini = "*"
clap = { version = "*", features = ["derive"] }
