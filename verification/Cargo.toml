[package]
name = "kalman_rs"
version = "0.1.0"
edition = "2021"

[dependencies]
nalgebra = "0.33"
rand = { version = "0.8", features = ["small_rng"] }
rand_distr = "0.4"
rayon = "1.10"
itertools = "0.13"
