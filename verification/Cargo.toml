[package]
name = "ant_colony"
version = "0.1.0"
edition = "2021"
publish = false

[dependencies]
lasso = "0.7"
num_cpus = "1"
rand = "0.9"
rayon = "1"
