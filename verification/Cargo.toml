[package]
name = "flood_paint"
version = "0.1.0"
edition = "2021"
publish = false

[dependencies]
rand = "0.8"
rayon = "1"
image = "0.25"
palette = "0.7"
serde = { version = "1", features = ["derive"] }
serde_json = "1"
strict-yaml-rust = "*"
