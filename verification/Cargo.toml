[package]
name = "fintrack"
version = "0.1.0"
edition = "2021"
publish = false

[dependencies]
chrono = "*"
clap = { version = "*", features = ["derive"] }
colored = "*"
dirs = "*"
serde_json = "*"
tabled = "*"
