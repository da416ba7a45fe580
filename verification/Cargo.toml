[package]
name = "kansa-core"
version = "0.1.0"
edition = "2021"
publish = false

[dependencies]
pulldown-cmark = { version = "0.12", default-features = false }
sha2 = "0.10"
hex = "0.4"
git2 = "*"
strsim = "0.11"
time = { version = "0.3", features = ["serde", "formatting", "parsing"] }
serde = { version = "1", features = ["derive"] }
serde_json = "1"
serde_yaml = "0.9"
anyhow = "1"
clap = { version = "4", features = ["derive", "env"] }
dirs = "*"
fs2 = "0.4"
tiny_http = "0.12"
