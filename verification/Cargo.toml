[package]
name = "limine_entries"
version = "0.1.0"
edition = "2021"
publish = false

[dependencies]
version-compare = "*"
clap = { version = "4", features = ["derive"] }
