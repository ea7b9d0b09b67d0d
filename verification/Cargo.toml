[package]
name = "dp_noise"
version = "0.1.0"
edition = "2021"
publish = false

[dependencies]
rand = "=0.8.8"
rayon = "=1.12.0"
astro-float = "=0.9.6"
num-bigint = "=0.5.1"
