[package]
name = "onagre"
version = "0.1.0"
edition = "2021"
publish = false

[dependencies]
pop-launcher = "=1.0.3"
fuzzy-matcher = "=0.3.7"
shell-words = "=1.1.1"
serde = { version = "=1.0.229", features = ["derive"] }
serde_json = "1"
iced_native = "=0.4.0"
iced = "0.3"
