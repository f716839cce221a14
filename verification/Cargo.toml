[package]
name = "serde_ndim"
version = "0.1.0"
edition = "2021"
publish = false

[dependencies]
arrayvec = "0.7"
serde = "1"
ndarray = "*"
nalgebra = { version = "*", default-features = false, features = ["std"] }

[dev-dependencies]
serde_json = "1"
