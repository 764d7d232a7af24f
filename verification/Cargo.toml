[package]
name = "dense_kernels"
version = "0.1.0"
edition = "2021"
publish = false

[dependencies]
dyn-stack = "*"
rayon = "1"
syn = { version = "2", features = ["full", "visit-mut"] }
quote = "1"
proc-macro2 = "1"

[dev-dependencies]
rand = "0.9"
rand_distr = "0.5"
