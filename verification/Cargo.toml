[package]
name = "sparql_update_gen"
version = "0.1.0"
edition = "2021"
publish = false

[dependencies]
ahash = { version = "0.8", default-features = false }
clap = { version = "3.2", features = ["derive"] }
rand = "0.8"
rio_api = "0.8"
rio_turtle = "0.8"
walkdir = "2"
