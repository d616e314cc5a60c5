[package]
name = "docgenerator"
version = "0.1.0"
edition = "2021"
publish = false

[dependencies]
anyhow = "1"
clap = { version = "4", features = ["derive"] }
csv = "1"
pdf-writer = "*"
serde = { version = "1", features = ["derive"] }
zip = { version = "*", default-features = false, features = ["deflate"] }
