[package]
name = "j2_gba_tool"
version = "0.1.0"
edition = "2021"
publish = false

[dependencies]
clap = "2.33"
colored = "1.9"
image = { version = "0.23", default-features = false, features = ["png", "bmp"] }
