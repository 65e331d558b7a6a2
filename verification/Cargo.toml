[package]
name = "cargo-verset"
version = "0.1.0"
edition = "2021"
publish = false

[dependencies]
anyhow = "*"
clap = { version = "*", features = ["derive"] }
dialoguer = "*"
git2 = { version = "*", default-features = false }
log = "*"
simplelog = "*"
