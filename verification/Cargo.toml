[package]
name = "upmm"
version = "0.1.0"
edition = "2021"
publish = false

[dependencies]
anyhow = "1"
clap = { version = "4", features = ["derive"] }
git2 = "*"
indexmap = { version = "2", features = ["serde"] }
json-patch = "*"
path-slash = "*"
regex = "1"
repak = "*"
serde = { version = "1", features = ["derive"] }
serde_json = "1"
slotmap = { version = "1", features = ["serde"] }
toml = "*"
