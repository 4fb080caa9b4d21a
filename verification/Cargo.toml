[package]
name = "texpand"
version = "0.1.0"
edition = "2021"
publish = false

[dependencies]
anyhow = "1"
arboard = { version = "3", default-features = false }
clap = { version = "4", features = ["derive"] }
csv = "1"
cursive = { version = "0.21", default-features = false, features = ["crossterm-backend"] }
log = "0.4"
serde = { version = "1", features = ["derive"] }
serde_json = "1"
serde_norway = "0.9"
thiserror = "1"
