[package]
name = "sem_tool"
version = "0.1.0"
edition = "2021"
publish = false

[dependencies]
semver = "1"
rand = "*"
rand_regex = "*"
clap = { version = "4", features = ["derive"] }
