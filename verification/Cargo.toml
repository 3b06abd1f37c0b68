[package]
name = "vhx"
version = "0.1.0"
edition = "2021"
publish = false

[dependencies]
hex = "0.4"
clap = { version = "3.2", features = ["derive"] }
