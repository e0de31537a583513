[package]
name = "itch_parser"
version = "0.1.0"
edition = "2021"

[dependencies]
byteorder = "1"
csv = "1"
flate2 = "1"
serde = { version = "1", features = ["derive"] }
