[package]
name = "scheduler_maker"
version = "0.1.0"
edition = "2021"
publish = false

[dependencies]
chrono = "0.4"
clap = { version = "4", features = ["derive"] }
ics = "0.5"
serde = { version = "1", features = ["derive"] }
toml = "0.8"
