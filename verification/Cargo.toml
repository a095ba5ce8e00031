[package]
name = "hyphenate"
version = "0.1.0"
edition = "2021"
publish = false

[dependencies]
atlatl = "0.1"
bincode = "1"
serde = { version = "1", features = ["derive"] }
unicode-normalization = "0.1"
