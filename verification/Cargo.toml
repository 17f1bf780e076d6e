[package]
name = "sysquery"
version = "0.8.0"
edition = "2021"
publish = false

[dependencies]
clap = { version = "4", features = ["derive"] }
colored = "2"
sysinfo = "0.29"
walkdir = "2"
