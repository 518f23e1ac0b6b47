[package]
name = "backy"
version = "0.2.0"
edition = "2021"
publish = false

[dependencies]
base64 = "0.22"
blake3 = { version = "1", features = ["pure"] }
chacha20 = "0.9"
clap = { version = "4", features = ["derive"] }
getrandom = "0.3"
humansize = "2"
indicatif = "0.17"
parse-size = "1"
rayon = "1"
rpassword = "7"
walkdir = "2"
