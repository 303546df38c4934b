[package]
name = "kolmogorov_smirnov"
version = "0.1.0"
edition = "2021"
publish = false

[dependencies]
rand = "0.8"
rand_distr = "0.4"

[dev-dependencies]
quickcheck = "1"
