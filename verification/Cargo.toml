[package]
name = "csv_line"
version = "0.1.0"
edition = "2021"
publish = false

[dependencies]
csv = "1"
serde = "1"
thiserror = "1"
