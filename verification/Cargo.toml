[package]
name = "torus"
version = "0.1.0"
edition = "2021"
publish = false

[dependencies]
glam = "0.29"
rand = "0.8"
clap = { version = "4", features = ["derive"] }
image = { version = "0.25", default-features = false, features = ["png"] }
