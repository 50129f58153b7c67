[package]
name = "aoc2022"
version = "0.1.0"
edition = "2021"
publish = false

[dependencies]
priority-queue = "1"
itertools = "0.10"
argh = "0.1"
colored = "2"
serde = { version = "1", features = ["derive"] }
serde_yaml = "0.9"
