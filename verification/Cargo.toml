[package]
name = "liushu"
version = "0.1.0"
edition = "2021"
publish = false

[dependencies]
bincode = "1"
boomphf = "*"
clap = { version = "*", features = ["derive"] }
patricia_tree = { version = "*", features = ["serde"] }
redb = "*"
rusqlite = { version = "*", features = ["bundled"] }
serde = { version = "*", features = ["derive"] }
serde_dhall = "*"
