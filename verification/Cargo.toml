[package]
name = "icondiff"
version = "0.1.0"
edition = "2021"
publish = false

[dependencies]
clap = { version = "=4.6.7", features = ["derive"] }
kurbo = "=0.13.1"
regex = "=1.13.1"
skrifa = "=0.46.2"
sleipnir = "=0.3.1"
