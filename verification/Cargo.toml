[package]
name = "git-mediate"
version = "0.1.0"
edition = "2021"
publish = false

[dependencies]
similar = "2"
colored = "2"
anyhow = "1"
thiserror = "1"
clap = { version = "4", features = ["derive"] }
tempfile = "3"
