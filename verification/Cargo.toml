[package]
name = "mushroom_tree"
version = "0.1.0"
edition = "2021"
publish = false

[dependencies]
permutator = "*"
csv = "1"
serde = { version = "1", features = ["derive"] }
