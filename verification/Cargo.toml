[package]
name = "gigapan"
version = "0.1.0"
edition = "2021"
publish = false

[dependencies]
hashbrown = "*"
leb128 = "*"
smallvec = "*"
nohash = "*"
fumen = "*"
rayon = "*"
indicatif = "*"
clap = { version = "4", features = ["derive"] }
