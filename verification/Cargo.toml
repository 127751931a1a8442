[package]
name = "old_file_deleter"
version = "0.1.0"
edition = "2021"
publish = false

[dependencies]
clap = { version = "*", features = ["derive"] }
color-eyre = "*"
humantime = "*"
trash = "*"
walkdir = "*"
