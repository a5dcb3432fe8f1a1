[package]
name = "threes"
version = "0.1.0"
edition = "2021"
publish = false

[dependencies]
rand = "0.8"
rand_pcg = { version = "0.3", features = ["serde1"] }
serde = { version = "1", features = ["derive"] }
crossterm = "0.28"
