[package]
name = "g3"
version = "0.1.0"
edition = "2021"
publish = false

[dependencies]
similar = "2"
git2 = "*"
serde = { version = "1", features = ["derive"] }
