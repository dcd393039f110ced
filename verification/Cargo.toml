[package]
name = "greenfield_codec"
version = "0.1.0"
edition = "2021"
publish = false

[dependencies]
byte-unit = "=4.0.19"
clap = { version = "=4.6.7", features = ["derive"] }
colored = "=2.2.0"
tabled = "=0.10.0"
