[package]
name = "linked_words"
version = "0.1.0"
edition = "2021"
publish = false

[dependencies]
fst = "0.3"
fst-regex = "0.3"
flate2 = "1"
serde = { version = "1", features = ["derive"] }
serde_json = "1"
clap = "2"
handlebars = "*"
rusqlite = { version = "*", features = ["bundled"] }
rocket = "0.5"
