[package]
name = "git_review"
version = "0.1.0"
edition = "2021"
publish = false

[dependencies]
git2 = { version = "*", default-features = false }
jiff = "*"
syntect = { version = "*", default-features = false, features = ["default-fancy"] }
two-face = { version = "*", default-features = false, features = ["syntect-fancy"] }
serde = { version = "1", features = ["derive"] }
serde_json = "1"
