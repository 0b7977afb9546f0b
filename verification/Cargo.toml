[package]
name = "working_hours"
version = "0.1.0"
edition = "2021"
publish = false

[dependencies]
serde = { version = "*", features = ["derive"] }
time = { version = "*", features = ["serde", "serde-well-known", "formatting", "parsing"] }
