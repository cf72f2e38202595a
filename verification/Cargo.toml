[package]
name = "stego"
version = "0.1.0"
edition = "2021"
publish = false

[dependencies]
rand = "0.7"
rand_chacha = "0.2"
rand_core = "0.5"
scrypt = "0.3"
zeroize = "1"
rpassword = "4"
clap = { version = "4", features = ["derive"] }
image = { version = "0.24", default-features = false, features = ["png"] }
