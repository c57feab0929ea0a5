[package]
name = "manga_update"
version = "0.1.0"
edition = "2021"
publish = false

[dependencies]
clap = { version = "*", features = ["derive"] }
dirs = "*"
reqwest = { version = "*", default-features = false }
tokio = { version = "*", features = ["rt"] }
