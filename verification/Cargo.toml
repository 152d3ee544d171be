[package]
name = "libraries_rust"
version = "0.1.0"
edition = "2021"
publish = false

[dependencies]
anymap = "*"
enum_dispatch = "*"
serde = { version = "*", features = ["derive"] }
serde_json = "*"
strum = "*"
strum_macros = "*"
thiserror = "*"
