[package]
name = "sueca_solver"
version = "0.1.0"
edition = "2021"
publish = false

[dependencies]
rayon = "=1.12.0"
rand = "0.8"
rand_pcg = "0.3"
