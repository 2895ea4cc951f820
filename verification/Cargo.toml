[package]
name = "open_depacker"
version = "0.1.0"
edition = "2021"
publish = false

[dependencies]
byteorder = "1"
sha2 = "0.10"
clap = { version = "3", features = ["derive"] }
walkdir = "2"
