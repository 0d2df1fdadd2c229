[package]
name = "emosaic"
version = "0.1.0"
edition = "2021"
publish = false

[dependencies]
kiddo = "4"
fixed = "1"
typenum = "1"
rand = "0.7"
num-integer = "0.1"
itertools = "0.10"
image = { version = "0.24", default-features = false, features = ["jpeg", "png", "bmp", "gif", "tiff", "webp"] }
clap = { version = "3.2", features = ["derive"] }
serde = { version = "1", features = ["derive"] }
bincode = "1"
rayon = "1"
indicatif = "0.17"
md5 = "0.7"
kamadak-exif = "0.5"
dirs = "5"
derive_more = "0.99"
backtrace-on-stack-overflow = "0.3"
