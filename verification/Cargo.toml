[package]
name = "ledger"
version = "0.1.0"
edition = "2021"
publish = false

[dependencies]
rust_decimal = { version = "1", default-features = false, features = ["std"] }
ariadne = "0.4"

[dev-dependencies]
chumsky = "0.10"
