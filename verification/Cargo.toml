[package]
name = "parse_csv"
version = "0.1.0"
edition = "2021"
publish = false

[dependencies]
csv-core = "=0.1.11"

[dev-dependencies]
csv = "=1.3.1"
