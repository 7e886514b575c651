[package]
name = "notemancy"
version = "0.1.0"
edition = "2021"
publish = false

[dependencies]
inquire = "*"
notemancy-core = "*"
nucleo-picker = "*"
reqwest = { version = "*", default-features = false, features = ["blocking", "json"] }
serde = { version = "*", features = ["derive"] }
