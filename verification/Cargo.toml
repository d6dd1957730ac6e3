[package]
name = "crabbucket"
version = "0.1.0"
edition = "2021"
publish = false

[dependencies]
toml = "*"
pulldown-cmark = { version = "*", default-features = false, features = ["html"] }
maud = "*"
serde = { version = "1", features = ["derive"] }
walkdir = "*"

[dev-dependencies]
toml = "*"
