[package]
name = "gridvm"
version = "0.1.0"
edition = "2021"
publish = false

[dependencies]
anyhow = "*"
owo-colors = "*"
ron = "*"
rustyline = "*"
serde = { version = "*", features = ["derive"] }
