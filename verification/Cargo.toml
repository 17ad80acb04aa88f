[package]
name = "findclone"
version = "0.1.0"
edition = "2021"
publish = false

[dependencies]
clap = { version = "4", features = ["derive"] }
data-encoding = "2"
multimap = { version = "0.10", default-features = false }
ring = "0.17"
walkdir = "2"
