[package]
name = "code-profile-manager"
version = "0.1.0"
edition = "2021"
publish = false

[dependencies]
anyhow = "1"
dialoguer = "*"
jsonc-parser = { version = "*", features = ["serde"] }
serde = { version = "1", features = ["derive"] }
serde_json = "1"
toml = "*"
zip = { version = "*", default-features = false, features = ["deflate"] }
