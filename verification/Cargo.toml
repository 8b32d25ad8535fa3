[package]
name = "unalz_rs"
version = "0.1.0"
edition = "2021"
publish = false

[dependencies]
bzip2 = "*"
clap = { version = "4", features = ["derive"] }
crc32fast = "*"
encoding_rs = "*"
filetime = "*"
flate2 = "*"
