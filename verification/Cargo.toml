[package]
name = "brc"
version = "0.1.0"
edition = "2021"
publish = false

[dependencies]
ahash = "*"
hashbrown = "*"
bstr = "*"
memmap2 = "*"
rayon = "*"
anyhow = "*"
