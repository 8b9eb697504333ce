[package]
name = "fast_paths"
version = "0.3.0"
edition = "2021"
publish = false

[dependencies]
priority-queue = "1"
serde = { version = "1", features = ["derive"] }
rand = "0.7"
stopwatch = "0.0.7"
