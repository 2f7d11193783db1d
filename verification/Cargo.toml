[package]
name = "mangalib"
version = "0.1.0"
edition = "2021"
publish = false

[dependencies]
globwalk = "0.9"
lazy_static = "1"
rocket = "0.5"
serde = { version = "1", features = ["derive"] }
tera = "1"

[dev-dependencies]
lexical-sort = "*"
