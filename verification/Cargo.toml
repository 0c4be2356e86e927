[package]
name = "rano"
version = "0.1.0"
edition = "2021"
publish = false

[dependencies]
unicode-width = "*"
regex = "1"
dirs = "*"
crossterm = "*"
clap = { version = "4", features = ["derive"] }
libc = "0.2"
