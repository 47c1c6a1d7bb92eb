[package]
name = "c4_engine"
version = "0.1.0"
edition = "2021"

[dependencies]
rand = "0.4"
rayon = "1"
