[package]
name = "privacyserver"
version = "0.1.0"
edition = "2021"
publish = false

[dependencies]
num-bigint = { version = "0.4", features = ["rand"] }
num-traits = "0.2"
num-prime = "0.4"
rand = "0.8"
actix-web = { version = "4", default-features = false, features = ["macros"] }
once_cell = "1"
serde = { version = "1", features = ["derive"] }
