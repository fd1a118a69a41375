[package]
name = "median_shape"
version = "0.1.0"
edition = "2021"
publish = false

[dependencies]
nalgebra = { version = "*", default-features = false, features = ["std"] }
good_lp = { version = "*", default-features = false, features = ["microlp"] }
