[package]
name = "isosurface_simplex"
version = "0.1.0"
edition = "2021"
publish = false

[dependencies]
crossbeam-channel = "0.5"
nalgebra = { version = "0.33", default-features = false, features = ["std"] }
