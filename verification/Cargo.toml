[package]
name = "casserole"
version = "0.1.0"
edition = "2021"
publish = false

[dependencies]
rust-crypto = "0.2"
ascii85 = "*"
serde = { version = "1", features = ["derive"] }
serde_json = "1"
maplit = "1"
syn = { version = "1", features = ["full", "extra-traits"] }
quote = "1"
proc-macro2 = "1"
