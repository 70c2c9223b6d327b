[package]
name = "rootkitty"
version = "0.1.0"
edition = "2021"
publish = false

[dependencies]
anyhow = "1"
chrono = "0.4"
clap = { version = "4", features = ["derive"] }
crossterm = "0.28"
jwalk = "0.8"
ratatui = "0.29"
rayon = "1"
serde = { version = "1", features = ["derive"] }
shellexpand = "3"
sqlx = { version = "0.8", default-features = false, features = ["runtime-tokio", "sqlite"] }
tokio = { version = "1", features = ["full"] }
toml = "0.8"
walkdir = "2"

[dev-dependencies]
tempfile = "3"
