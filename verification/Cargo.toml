[package]
name = "stroke_db"
version = "0.1.0"
edition = "2021"
publish = false

[dependencies]
base64 = "*"
bzip2 = "*"

[dev-dependencies]
bincode = "1"
