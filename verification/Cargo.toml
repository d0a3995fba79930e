[package]
name = "repo_store"
version = "0.1.0"
edition = "2021"
publish = false

[dependencies]
lru = "*"
uuid = { version = "*", features = ["v4"] }
chrono = "*"
dirs = "*"
walkdir = "*"
git2 = "*"
