[package]
name = "pdfwrite"
version = "0.1.0"
edition = "2021"
publish = false

[dependencies]
itoa = "1"

[dev-dependencies]
tempfile = "3"
