[package]
name = "drill"
version = "0.1.0"
edition = "2021"
publish = false

[dependencies]
chrono = { version = "0.4", features = ["serde"] }
colored = "2"
dirs = "4"
rand = "0.8"
rusqlite = { version = "0.29", features = ["bundled"] }
rustyline = "9"
serde = { version = "1", features = ["derive"] }
serde_json = "1"
structopt = "0.3"
textwrap = { version = "0.11", features = ["term_size"] }
unicode-normalization = "0.1"
