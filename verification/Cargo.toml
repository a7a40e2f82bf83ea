[package]
name = "memex"
version = "0.2.0"
edition = "2021"
publish = false

[dependencies]
anyhow = "1"
clap = { version = "4", features = ["derive"] }
dirs = "*"
fancy-regex = "*"
fastembed = "*"
globset = "*"
rusqlite = { version = "*", features = ["bundled"] }
serde = { version = "1", features = ["derive"] }
sha2 = "*"
toml = "*"
walkdir = "2"
