[package]
name = "mdstream"
version = "0.1.0"
edition = "2021"
publish = false

[dependencies]
jsonrepair = "*"
pulldown-cmark = { version = "*", default-features = false }
tokio = { version = "*", features = ["sync", "time", "rt", "macros"] }
