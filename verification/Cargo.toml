[package]
name = "imgc"
version = "0.1.0"
edition = "2021"
publish = false

[dependencies]
anyhow = "1"
clap = { version = "4", features = ["derive"] }
image = { version = "0.24", default-features = false, features = ["jpeg", "png"] }
ndarray = "0.15"
rand = "0.8"
