[package]
name = "sessionizer"
version = "0.1.0"
edition = "2021"
publish = false

[dependencies]
path-clean = "*"
shellexpand = "*"
rayon = "*"
serde = { version = "*", features = ["derive"] }
serde_yaml = "*"
structopt = "*"
