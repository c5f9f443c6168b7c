[package]
name = "omnibook_rs"
version = "0.1.0"
edition = "2021"
publish = false

[dependencies]
libc = "0.2"
gtk4 = "*"
libadwaita = { version = "*", features = ["v1_4"] }
