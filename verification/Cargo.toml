[package]
name = "abd_clam"
version = "0.1.0"
edition = "2021"
publish = false

[dependencies]
distances = "*"
rayon = "1"
serde = { version = "1", features = ["derive"] }
serde_json = "1"
rand = "0.8"
rand_chacha = "0.3"

[dev-dependencies]
rand = "0.8"
