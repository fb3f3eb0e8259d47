[package]
name = "sli"
version = "0.1.0"
edition = "2021"
publish = false

[dependencies]
hash40 = "*"
serde = { version = "1", features = ["derive"] }
serde_yaml = "0.9"
clap = { version = "4", features = ["derive"] }
