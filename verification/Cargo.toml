[package]
name = "bgg_encoding"
version = "0.1.0"
edition = "2021"
publish = false

[dependencies]
concrete-ntt = "=0.2.0"
rand = "=0.8.8"
rand_distr = "=0.4.3"
rayon = "*"
