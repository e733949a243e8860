[package]
name = "curve1024"
version = "0.1.0"
edition = "2021"
publish = false

[dependencies]
subtle = "2"
rand = "0.9"
sha2 = "0.10"
clap = { version = "4", features = ["derive"] }
