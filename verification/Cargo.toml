[package]
name = "rust_writer"
version = "0.1.0"
edition = "2021"
publish = false

[dependencies]
prettyplease = { version = "=0.2.37", features = ["verbatim"] }
syn = { version = "=2.0.119", features = ["full", "extra-traits"] }
