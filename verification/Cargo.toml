[package]
name = "umi_checker"
version = "0.1.0"
edition = "2021"
publish = false

[dependencies]
anyhow = "=1.0.104"
clap = { version = "=4.6.7", features = ["derive"] }
flate2 = "=1.1.10"
needletail = "=0.7.3"
rayon = "=1.12.0"
