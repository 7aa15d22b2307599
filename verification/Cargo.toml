[package]
name = "git_statistics"
version = "0.1.0"
edition = "2021"
publish = false

[dependencies]
clap = { version = "4", features = ["derive"] }
comfy-table = "7"
git2 = { version = "*", default-features = false }
itertools = "*"
serde = { version = "1", features = ["derive"] }
