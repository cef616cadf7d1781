[package]
name = "lily_blog"
version = "0.1.0"
edition = "2021"
publish = false

[dependencies]
markdown = "*"
dotenv = "*"
anyhow = "*"
serde = { version = "*", features = ["derive"] }
serde_json = "*"
