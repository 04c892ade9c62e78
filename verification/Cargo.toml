[package]
name = "hpak"
version = "0.1.0"
edition = "2021"
publish = false

[dependencies]
xxhash-rust = { version = "*", features = ["xxh3"] }
zopfli = "*"
flate2 = "*"
memmap2 = "*"
thiserror = "*"
