[package]
name = "highlight_span"
version = "0.1.0"
edition = "2021"
publish = false

[dependencies]
clap = { version = "*", features = ["derive"] }
owo-colors = "*"
tabled = "*"
