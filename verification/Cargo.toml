[package]
name = "art_engine"
version = "0.1.0"
edition = "2021"
publish = false

[dependencies]
sha2 = "*"
rand = "*"
image = { version = "*", default-features = false, features = ["png"] }
clap = { version = "*", features = ["derive"] }
indicatif = "*"

[dev-dependencies]
serde_json = "*"
