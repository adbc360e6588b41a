[package]
name = "linker"
version = "0.1.0"
edition = "2021"
publish = false

[dependencies]
regex = "1"
json = "0.12"
log = "0.4"
clap = { version = "4", features = ["derive"] }
