[package]
name = "gh_stars"
version = "0.1.0"
edition = "2021"
publish = false

[dependencies]
anyhow = "*"
clap = { version = "*", features = ["derive"] }
dirs = "*"
fastembed = "*"
gh-token = "*"
indicatif = "*"
reqwest = { version = "*", features = ["json"] }
rusqlite = { version = "*", features = ["bundled"] }
serde = { version = "*", features = ["derive"] }
serde_json = "*"
sqlite-vec = "*"
tokio = { version = "*", features = ["macros", "rt-multi-thread"] }
