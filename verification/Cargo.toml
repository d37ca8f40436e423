[package]
name = "ipmark"
version = "0.1.0"
edition = "2021"
publish = false

[dependencies]
byteorder = "1"
encoding_rs = "0.8"
regex = "1"
lru = "0.12"
clap = { version = "4", features = ["derive", "env"] }
maxminddb = "0.24"
ipaddress = "*"
