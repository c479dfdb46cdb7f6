[package]
name = "orange"
version = "0.1.0"
edition = "2021"
publish = false

[dependencies]
rustpython-parser = { version = "=0.4.0", features = ["full-lexer"] }
