[package]
name = "csv_viewer"
version = "0.1.0"
edition = "2021"
publish = false

[dependencies]
anyhow = "=1.0.104"
csv = "=1.4.0"
log = "=0.4.34"
log4rs = "=1.4.0"
promkit = "=0.4.0"
unicode-width = "=0.2.2"
