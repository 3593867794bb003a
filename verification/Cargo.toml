[package]
name = "seedsearch"
version = "0.1.0"
edition = "2021"
publish = false

[dependencies]
fuzzt = "=0.3.1"
clap = { version = "=4.6.7", features = ["derive"] }
anyhow = "=1.0.104"
