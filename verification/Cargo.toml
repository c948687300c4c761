[package]
name = "ase_chunks"
version = "0.1.0"
edition = "2021"
publish = false

[dependencies]
nohash = "0.2"
