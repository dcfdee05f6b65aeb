[package]
name = "csv-to-duckdb"
version = "0.1.0"
edition = "2021"
publish = false

[dependencies]
anyhow = "=1.0.104"
clap = { version = "=4.6.7", features = ["derive"] }
csv = "=1.4.0"
duckdb = "~1.4"
indicatif = "=0.17.11"
