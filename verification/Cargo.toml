[package]
name = "fck"
version = "0.1.0"
edition = "2021"
publish = false

[dependencies]
crossterm = "*"
clap = { version = "*", features = ["derive"] }
