[package]
name = "issen"
version = "0.1.0"
edition = "2021"
publish = false

[dependencies]
pulldown-cmark = { version = "0.13", default-features = false }
regex = "1"
unicode-normalization = "0.1"
lindera = { version = "*", features = ["embedded-ipadic"] }
clap = { version = "4", features = ["derive"] }
serde = { version = "1", features = ["derive"] }
serde_json = "1"
serde_yaml = "0.9"
