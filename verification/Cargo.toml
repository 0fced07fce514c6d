[package]
name = "aquascope_reveal"
version = "0.1.0"
edition = "2021"
publish = false

[dependencies]
pulldown-cmark = { version = "*", default-features = false, features = ["html"] }
ra-ap-rustc_lexer = "*"
ansi-to-html = "*"
anyhow = "1"
clap = { version = "4", features = ["derive"] }
serde = { version = "1", features = ["derive"] }
serde_json = "1"
serde_yaml = "*"
