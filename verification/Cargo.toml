[package]
name = "markdown_viewer"
version = "0.1.0"
edition = "2021"
publish = false

[dependencies]
encoding_rs = "0.8"
pulldown-cmark = { version = "0.13", default-features = false, features = ["html"] }
percent-encoding = "2.3"
serde = { version = "1", features = ["derive"] }
serde_json = "1"
notify = "8"
