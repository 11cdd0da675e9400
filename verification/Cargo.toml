[package]
name = "clitools"
version = "0.1.0"
edition = "2021"
publish = false

[dependencies]
regex = "1"
rand = "*"
itertools = "*"
tabled = "*"
clap = { version = "4", features = ["derive"] }
walkdir = "2"
chrono = "*"
uzers = "*"
anyhow = "1"
