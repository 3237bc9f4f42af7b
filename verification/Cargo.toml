[package]
name = "piopkit"
version = "0.1.0"
edition = "2021"
publish = false

[dependencies]
rand = "=0.9.5"
rand_seeder = "=0.5.0"
rand_distr = "=0.5.1"
