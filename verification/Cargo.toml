[package]
name = "pnum"
version = "0.1.0"
edition = "2021"
publish = false

[dependencies]
anyhow = "*"
clap = { version = "*", features = ["derive"] }
console = "*"
ignore = "*"
indicatif = "*"
rayon = "*"
serde_json = "*"

[dev-dependencies]
tempfile = "*"
