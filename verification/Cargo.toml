[package]
name = "joblens"
version = "0.1.0"
edition = "2021"
publish = false

[dependencies]
csv = "*"
regex = "*"
reqwest = { version = "*", default-features = false, features = ["blocking", "json"] }
serde = { version = "*", features = ["derive"] }
serde_json = "*"
