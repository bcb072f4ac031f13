[package]
name = "terminal_renderer"
version = "0.1.0"
edition = "2021"
publish = false

[dependencies]
atty = "0.2"
clap = { version = "4", features = ["derive"] }
colored = "2"
pulldown-cmark = { version = "0.9", default-features = false }
