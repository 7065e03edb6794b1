[package]
name = "kuzo"
version = "0.1.0"
edition = "2021"
publish = false

[dependencies]
rustc-hash = "2"
rayon = "1"
clap = { version = "4", features = ["derive"] }
serde = { version = "1", features = ["derive"] }
toml = "0.8"
