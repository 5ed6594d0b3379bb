[package]
name = "bmlite"
version = "0.1.0"
edition = "2021"
publish = false

[dependencies]
byteorder = "1"
crc = "1"
embedded-hal = { version = "0.2", features = ["unproven"] }
