[package]
name = "ra_analysis"
version = "0.1.0"
edition = "2021"
publish = false

[dependencies]
fst = "0.3"
rayon = "1"
rustc-hash = "1"
log = "0.4"
