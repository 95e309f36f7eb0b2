[package]
name = "integ"
version = "0.1.0"
edition = "2021"
publish = false

[dependencies]
anyhow = "1"
pathdiff = "0.2"
serde = { version = "1", features = ["derive"] }
serde_json = "1"
serde_yaml = "*"
structopt = "0.3"
