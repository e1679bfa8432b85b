[package]
name = "gem_align"
version = "0.1.0"
edition = "2021"
publish = false

[dependencies]
rayon = "1"
nalgebra = "*"
serde = { version = "1", features = ["derive"] }
toml = "*"
