[package]
name = "hull_tour"
version = "0.1.0"
edition = "2021"
publish = false

[dependencies]
rustc-hash = "2"
rayon = "1"
indicatif = "0.17"
