[package]
name = "dwwb"
version = "0.1.0"
edition = "2021"
publish = false

[dependencies]
serde = { version = "*", features = ["derive"] }
serde_yaml = "*"
url-escape = "*"
clap = { version = "4", features = ["derive"] }
globwalk = "*"
pandoc = "*"
