[package]
name = "bspedit"
version = "0.1.0"
edition = "2021"
publish = false

[dependencies]
lzma-rs = "=0.3.0"
gmod-lzma = "=1.0.1"
zip = { version = "=0.5.13", default-features = false }
sha2 = "=0.10.9"
hex = "=0.4.3"
hashbrown = { version = "=0.14.5", features = ["serde"] }
serde_json = "=1.0.154"
egui = "=0.14.2"
egui-miniquad = "=0.6.0"
miniquad = "=0.3.0-alpha.37"
rfd = "=0.4.4"
half = "=1.8.3"
vtf = "*"
