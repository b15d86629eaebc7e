[package]
name = "rpm"
version = "0.1.0"
edition = "2021"
publish = false

[dependencies]
openssl = "0.10"
rust-crypto = "0.2.36"
rpassword = "5"
termion = "1.5"
tui = "0.8"
