[package]
name = "mine_sweeper"
version = "0.1.0"
edition = "2021"

[dependencies]
itertools = "*"
rand = "0.8"
serde = { version = "1", features = ["derive"] }
