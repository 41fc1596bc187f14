[package]
name = "redline"
version = "0.1.0"
edition = "2021"
publish = false

[dependencies]
unicode-width = "0.2"
ropey = "1"
git2 = { version = "*", default-features = false }
ignore = "0.4"
grep-regex = "0.1"
grep-searcher = "0.1"
serde = { version = "1", features = ["derive"] }
serde_json = "1"
dirs = "*"
tokio = { version = "1", features = ["sync"] }
thiserror = "*"
anyhow = "1"
