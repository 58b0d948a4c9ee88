[package]
name = "minichain"
version = "0.1.0"
edition = "2021"
publish = false

[dependencies]
sha2 = "*"
ripemd = "*"
bs58 = "*"
ring = "*"
rand = "*"
sled = "*"
clap = { version = "*", features = ["derive"] }

[dev-dependencies]
hex = "*"
bincode = "1"
merkle-cbt = "*"
