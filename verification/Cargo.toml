[package]
name = "data_playground"
version = "0.1.0"
edition = "2021"
publish = false

[dependencies]
anyhow = "1"
clap = { version = "3.2", features = ["derive"] }
polars = { version = "0.24", features = ["lazy", "strings"] }
