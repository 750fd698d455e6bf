[package]
name = "manga_parser_core"
version = "0.1.0"
edition = "2021"
publish = false

[dependencies]
serde = { version = "1", features = ["derive"] }
thiserror = "2"
walkdir = "2"
tempfile = "3"
zip = { version = "2", default-features = false, features = ["deflate"] }
